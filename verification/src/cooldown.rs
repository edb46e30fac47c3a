//! Who has spoken, and how recently.
//!
//! A subject that has raised an alert is held back until its cooldown is over.
//! The record of that has to outlive whatever raised the alert: a flow is
//! forgotten once its window is empty, which may be long before it may speak
//! again.

use vstd::prelude::*;

verus! {

/// What alerts are about, and can be told apart by.
pub trait Subject: View + Sized {
    fn is(&self, other: &Self) -> (b: bool)
        ensures
            b == (self@ == other@),
    ;
}

pub struct Entry<S> {
    pub subject: S,
    pub at: i64,
}

/// When each subject last raised an alert.
pub struct Spoken<S> {
    pub entries: Vec<Entry<S>>,
}

impl<S: Subject> View for Spoken<S> {
    type V = Seq<(S::V, i64)>;

    open spec fn view(&self) -> Seq<(S::V, i64)> {
        self.entries@.map_values(|e: Entry<S>| (e.subject@, e.at))
    }
}

/// When a subject last raised an alert, by the entries from `i` on.
pub open spec fn last<T>(spoken: Seq<(T, i64)>, subject: T, i: int) -> Option<i64>
    decreases spoken.len() - i,
{
    if i < 0 || i >= spoken.len() {
        None
    } else if spoken[i].0 == subject {
        Some(spoken[i].1)
    } else {
        last(spoken, subject, i + 1)
    }
}

/// The entries after a subject raised an alert; the ones before `i` are another's.
pub open spec fn noted<T>(spoken: Seq<(T, i64)>, subject: T, now: i64, i: int) -> Seq<(T, i64)>
    decreases spoken.len() - i,
{
    if i < 0 || i >= spoken.len() {
        spoken.push((subject, now))
    } else if spoken[i].0 == subject {
        spoken.update(i, (subject, now))
    } else {
        noted(spoken, subject, now, i + 1)
    }
}

/// The first `n` entries without those that can no longer hold anything back.
pub open spec fn still_holding<T>(
    spoken: Seq<(T, i64)>,
    now: i64,
    cooldown_secs: u64,
    n: int,
) -> Seq<(T, i64)>
    decreases n,
{
    if n <= 0 {
        Seq::empty()
    } else if now - spoken[n - 1].1 < cooldown_secs as i64 {
        still_holding(spoken, now, cooldown_secs, n - 1).push(spoken[n - 1])
    } else {
        still_holding(spoken, now, cooldown_secs, n - 1)
    }
}

/// The cooldown that followed the last alert is over.
pub open spec fn cooled(alerted_at: Option<i64>, now: i64, cooldown_secs: u64) -> bool {
    match alerted_at {
        Some(last) => now - last >= cooldown_secs as i64,
        None => true,
    }
}

/// The subject has spoken less than a cooldown ago.
pub open spec fn held<T>(spoken: Seq<(T, i64)>, subject: T, now: i64, cooldown_secs: u64) -> bool {
    !cooled(last(spoken, subject, 0), now, cooldown_secs)
}

pub fn is_cooled(alerted_at: Option<i64>, now: i64, cooldown_secs: u64) -> (b: bool)
    ensures
        b == cooled(alerted_at, now, cooldown_secs),
{
    match alerted_at {
        Some(last) => (now as i128) - (last as i128) >= (cooldown_secs as i64) as i128,
        None => true,
    }
}

impl<S: Subject> Spoken<S> {
    pub fn new() -> (out: Spoken<S>)
        ensures
            out@ == Seq::<(S::V, i64)>::empty(),
    {
        let out = Spoken { entries: Vec::new() };
        assert(out@ =~= Seq::<(S::V, i64)>::empty());
        out
    }

    /// Has the subject spoken less than a cooldown ago?
    pub fn holds(&self, subject: &S, now: i64, cooldown_secs: u64) -> (b: bool)
        ensures
            b == held(self@, subject@, now, cooldown_secs),
    {
        let ghost all = self@;
        let mut i: usize = 0;
        while i < self.entries.len()
            invariant
                i <= self.entries.len(),
                all == self@,
                all.len() == self.entries@.len(),
                last(all, subject@, 0) == last(all, subject@, i as int),
            decreases self.entries.len() - i,
        {
            assert(all[i as int] == (self.entries@[i as int].subject@, self.entries@[i as int].at));
            if self.entries[i].subject.is(subject) {
                return !is_cooled(Some(self.entries[i].at), now, cooldown_secs);
            }
            i = i + 1;
        }
        false
    }

    /// The subject raises an alert.
    pub fn note(&mut self, subject: S, now: i64)
        ensures
            final(self)@ == noted(old(self)@, subject@, now, 0),
    {
        let ghost all = self@;
        let ghost name = subject@;
        let mut i: usize = 0;
        while i < self.entries.len()
            invariant
                i <= self.entries.len(),
                *self == *old(self),
                all == self@,
                all.len() == self.entries@.len(),
                name == subject@,
                noted(all, name, now, 0) == noted(all, name, now, i as int),
            decreases self.entries.len() - i,
        {
            assert(all[i as int] == (self.entries@[i as int].subject@, self.entries@[i as int].at));
            if self.entries[i].subject.is(&subject) {
                self.entries[i].at = now;
                assert(self@ =~= all.update(i as int, (name, now)));
                return ;
            }
            i = i + 1;
        }
        self.entries.push(Entry { subject, at: now });
        assert(self@ =~= all.push((name, now)));
    }

    /// Drop the entries that can no longer hold anything back.
    pub fn expire(&mut self, now: i64, cooldown_secs: u64)
        ensures
            final(self)@ == still_holding(
                old(self)@,
                now,
                cooldown_secs,
                old(self)@.len() as int,
            ),
    {
        let ghost all = self@;
        let ghost mut n: int = 0;
        let mut i: usize = 0;
        assert(self@ =~= still_holding(all, now, cooldown_secs, 0) + all.skip(0));
        while i < self.entries.len()
            invariant
                0 <= n <= all.len(),
                all == old(self)@,
                i <= self.entries.len(),
                i == still_holding(all, now, cooldown_secs, n).len(),
                self@ == still_holding(all, now, cooldown_secs, n) + all.skip(n),
            decreases self.entries.len() - i,
        {
            let ghost so_far = self@;
            assert(so_far.len() == self.entries@.len());
            assert(so_far[i as int] == all[n]);
            assert(so_far[i as int].1 == self.entries@[i as int].at);
            if (now as i128) - (self.entries[i].at as i128) < (cooldown_secs as i64) as i128 {
                i = i + 1;
            } else {
                let _ = self.entries.remove(i);
                assert(self@ =~= so_far.remove(i as int));
            }
            proof {
                n = n + 1;
            }
            assert(self@ =~= still_holding(all, now, cooldown_secs, n) + all.skip(n));
        }
        assert(self@.len() == self.entries@.len());
        assert(n == all.len());
        assert(self@ =~= still_holding(all, now, cooldown_secs, n));
    }
}

// -- Laws ---------------------------------------------------------------------

proof fn lemma_last_agrees<T>(a: Seq<(T, i64)>, b: Seq<(T, i64)>, subject: T, i: int)
    requires
        a.len() == b.len(),
        0 <= i <= a.len(),
        forall|k: int| i <= k < a.len() ==> a[k] == b[k],
    ensures
        last(a, subject, i) == last(b, subject, i),
    decreases a.len() - i,
{
    if i < a.len() {
        assert(a[i] == b[i]);
        lemma_last_agrees(a, b, subject, i + 1);
    }
}

proof fn lemma_noted<T>(spoken: Seq<(T, i64)>, subject: T, other: T, now: i64, i: int)
    requires
        0 <= i <= spoken.len(),
        other != subject,
    ensures
        last(noted(spoken, subject, now, i), subject, i) == Some(now),
        last(noted(spoken, subject, now, i), other, i) == last(spoken, other, i),
        noted(spoken, subject, now, i).len() >= spoken.len(),
        forall|k: int| 0 <= k < i ==> noted(spoken, subject, now, i)[k] == spoken[k],
    decreases spoken.len() - i,
{
    let after = noted(spoken, subject, now, i);
    if i < spoken.len() {
        if spoken[i].0 == subject {
            lemma_last_agrees(after, spoken, other, i + 1);
        } else {
            lemma_noted(spoken, subject, other, now, i + 1);
            assert(after[i] == spoken[i]);
        }
    } else {
        assert(after[i] == (subject, now));
        assert(last(after, other, i + 1) is None);
    }
}

proof fn lemma_noted_last<T>(spoken: Seq<(T, i64)>, subject: T, now: i64, i: int)
    requires
        0 <= i <= spoken.len(),
    ensures
        last(noted(spoken, subject, now, i), subject, i) == Some(now),
        noted(spoken, subject, now, i).len() >= spoken.len(),
        forall|k: int| 0 <= k < i ==> noted(spoken, subject, now, i)[k] == spoken[k],
    decreases spoken.len() - i,
{
    let after = noted(spoken, subject, now, i);
    if i < spoken.len() {
        if spoken[i].0 != subject {
            lemma_noted_last(spoken, subject, now, i + 1);
            assert(after[i] == spoken[i]);
        }
    } else {
        assert(after[i] == (subject, now));
    }
}

/// A subject that raises an alert is on record with it.
pub proof fn an_alert_is_on_record<T>(spoken: Seq<(T, i64)>, subject: T, now: i64)
    ensures
        last(noted(spoken, subject, now, 0), subject, 0) == Some(now),
{
    lemma_noted_last(spoken, subject, now, 0);
}

/// Subjects do not share a cooldown: what one says changes nothing about when
/// another may speak.
pub proof fn subjects_do_not_share_a_cooldown<T>(
    spoken: Seq<(T, i64)>,
    spoke: T,
    other: T,
    now: i64,
)
    requires
        other != spoke,
    ensures
        last(noted(spoken, spoke, now, 0), other, 0) == last(spoken, other, 0),
        last(noted(spoken, spoke, now, 0), spoke, 0) == Some(now),
{
    lemma_noted(spoken, spoke, other, now, 0);
}

proof fn lemma_last_of_more<T>(a: Seq<(T, i64)>, more: (T, i64), subject: T, i: int)
    requires
        0 <= i <= a.len(),
    ensures
        last(a.push(more), subject, i) == match last(a, subject, i) {
            Some(at) => Some(at),
            None => if more.0 == subject {
                Some(more.1)
            } else {
                None
            },
        },
    decreases a.len() - i,
{
    let after = a.push(more);
    if i < a.len() {
        assert(after[i] == a[i]);
        lemma_last_of_more(a, more, subject, i + 1);
    } else {
        assert(after[i] == more);
        assert(last(after, subject, i + 1) is None);
    }
}

proof fn lemma_holding<T>(spoken: Seq<(T, i64)>, subject: T, now: i64, cooldown_secs: u64, n: int)
    requires
        0 <= n <= spoken.len(),
        !cooled(last(spoken.take(n), subject, 0), now, cooldown_secs),
    ensures
        last(still_holding(spoken, now, cooldown_secs, n), subject, 0) == last(
            spoken.take(n),
            subject,
            0,
        ),
    decreases n,
{
    if n > 0 {
        let before = spoken.take(n - 1);
        assert(spoken.take(n) =~= before.push(spoken[n - 1]));
        lemma_last_of_more(before, spoken[n - 1], subject, 0);
        let kept = still_holding(spoken, now, cooldown_secs, n - 1);
        if last(before, subject, 0) is Some {
            lemma_holding(spoken, subject, now, cooldown_secs, n - 1);
        } else {
            lemma_none_holding(spoken, subject, now, cooldown_secs, n - 1);
        }
        lemma_last_of_more(kept, spoken[n - 1], subject, 0);
    }
}

proof fn lemma_none_holding<T>(
    spoken: Seq<(T, i64)>,
    subject: T,
    now: i64,
    cooldown_secs: u64,
    n: int,
)
    requires
        0 <= n <= spoken.len(),
        last(spoken.take(n), subject, 0) is None,
    ensures
        last(still_holding(spoken, now, cooldown_secs, n), subject, 0) is None,
    decreases n,
{
    if n > 0 {
        let before = spoken.take(n - 1);
        assert(spoken.take(n) =~= before.push(spoken[n - 1]));
        lemma_last_of_more(before, spoken[n - 1], subject, 0);
        lemma_none_holding(spoken, subject, now, cooldown_secs, n - 1);
        let kept = still_holding(spoken, now, cooldown_secs, n - 1);
        lemma_last_of_more(kept, spoken[n - 1], subject, 0);
    }
}

/// Tidying up forgets nothing that still matters: a subject that is held back
/// stays on record with the time it last spoke.
pub proof fn a_cooldown_is_kept_until_it_is_over<T>(
    spoken: Seq<(T, i64)>,
    subject: T,
    now: i64,
    cooldown_secs: u64,
)
    requires
        held(spoken, subject, now, cooldown_secs),
    ensures
        last(
            still_holding(spoken, now, cooldown_secs, spoken.len() as int),
            subject,
            0,
        ) == last(spoken, subject, 0),
{
    assert(spoken.take(spoken.len() as int) =~= spoken);
    lemma_holding(spoken, subject, now, cooldown_secs, spoken.len() as int);
}

/// A cooldown is over once its seconds have passed, and none is on for a subject
/// that never spoke.
pub proof fn a_cooldown_lasts_as_long_as_it_says(last: i64, now: i64, cooldown_secs: u64)
    requires
        cooldown_secs <= 0x7fff_ffff_ffff_ffff,
    ensures
        cooled(Some(last), now, cooldown_secs) <==> now - last >= cooldown_secs,
        cooled(None, now, cooldown_secs),
{
}

/// A subject is held back exactly where it spoke less than a cooldown ago.
pub proof fn a_subject_is_held_back_within_its_cooldown<T>(
    spoken: Seq<(T, i64)>,
    subject: T,
    now: i64,
    later: i64,
    cooldown_secs: u64,
)
    requires
        cooldown_secs <= 0x7fff_ffff_ffff_ffff,
    ensures
        held(noted(spoken, subject, now, 0), subject, later, cooldown_secs) <==> later - now
            < cooldown_secs,
        !held(Seq::empty(), subject, later, cooldown_secs),
{
    an_alert_is_on_record(spoken, subject, now);
}

/// What is kept on record is what is still held back: every entry of it was there
/// before, and none of it is over.
pub proof fn only_what_is_held_back_is_kept<T>(
    spoken: Seq<(T, i64)>,
    now: i64,
    cooldown_secs: u64,
    entry: (T, i64),
)
    requires
        cooldown_secs <= 0x7fff_ffff_ffff_ffff,
    ensures
        still_holding(spoken, now, cooldown_secs, spoken.len() as int).contains(entry)
            <==> spoken.contains(entry) && now - entry.1 < cooldown_secs,
{
    lemma_kept(spoken, now, cooldown_secs, spoken.len() as int, entry);
    if spoken.contains(entry) {
        let i = choose|i: int| 0 <= i < spoken.len() && spoken[i] == entry;
        assert(spoken[i] == entry);
    }
}

proof fn lemma_kept<T>(
    spoken: Seq<(T, i64)>,
    now: i64,
    cooldown_secs: u64,
    n: int,
    entry: (T, i64),
)
    requires
        0 <= n <= spoken.len(),
        cooldown_secs <= 0x7fff_ffff_ffff_ffff,
    ensures
        still_holding(spoken, now, cooldown_secs, n).contains(entry) <==> now - entry.1
            < cooldown_secs && exists|i: int| 0 <= i < n && #[trigger] spoken[i] == entry,
    decreases n,
{
    if n > 0 {
        lemma_kept(spoken, now, cooldown_secs, n - 1, entry);
        let before = still_holding(spoken, now, cooldown_secs, n - 1);
        let after = still_holding(spoken, now, cooldown_secs, n);
        if now - spoken[n - 1].1 < cooldown_secs as i64 {
            assert(after == before.push(spoken[n - 1]));
            assert(after[before.len() as int] == spoken[n - 1]);
            if before.contains(entry) {
                let k = choose|k: int| 0 <= k < before.len() && before[k] == entry;
                assert(after[k] == entry);
            }
            if after.contains(entry) {
                let k = choose|k: int| 0 <= k < after.len() && after[k] == entry;
                if k < before.len() {
                    assert(before[k] == entry);
                }
            }
        }
    }
}

} // verus!
