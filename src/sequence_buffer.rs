//! A fixed-capacity ring of received sequence numbers.

use crate::sequence::{seq_back, seq_diff, seq_greater, sequence_greater_than, sequence_less_than, SequenceNumber};
use vstd::prelude::*;

verus! {

/// `s` lies among the `cap` sequence numbers just before `head`.
pub open spec fn in_window(head: u16, cap: nat, s: u16) -> bool {
    seq_diff(head, s) >= 1 && seq_diff(head, s) <= cap
}

/// Remembers which of the last `capacity` sequence numbers were inserted.
/// Slot `s % capacity` records `s` while `s` is within the window ending
/// just before `sequence_num`; older numbers are evicted as the head moves.
#[derive(Debug)]
pub struct SequenceBuffer {
    sequence_num: SequenceNumber,
    entry_sequences: Vec<Option<SequenceNumber>>,
}

impl SequenceBuffer {
    pub closed spec fn cap(&self) -> nat {
        self.entry_sequences@.len()
    }

    /// One past the newest inserted sequence number.
    pub closed spec fn head(&self) -> u16 {
        self.sequence_num
    }

    /// `s` is currently recorded.
    pub closed spec fn contains(&self, s: u16) -> bool {
        self.entry_sequences@[(s % (self.cap() as u16)) as int] == Some(s)
    }

    pub closed spec fn wf(&self) -> bool {
        &&& 2 <= self.cap() < 32768
        &&& forall|i: int|
            0 <= i < self.cap() ==> match #[trigger] self.entry_sequences@[i] {
                Some(s) => s % (self.cap() as u16) == i && in_window(self.sequence_num, self.cap(), s),
                None => true,
            }
    }

    /// An empty buffer of `capacity` slots whose head is 0.
    pub fn with_capacity(capacity: u16) -> (r: SequenceBuffer)
        requires
            2 <= capacity < 32768,
        ensures
            r.wf(),
            r.cap() == capacity,
            r.head() == 0,
            forall|s: u16| !r.contains(s),
    {
        let mut entry_sequences: Vec<Option<SequenceNumber>> = Vec::new();
        let mut i: u16 = 0;
        while i < capacity
            invariant
                i <= capacity,
                entry_sequences@.len() == i,
                forall|j: int| 0 <= j < i ==> entry_sequences@[j] == None::<u16>,
            decreases capacity - i,
        {
            entry_sequences.push(None);
            i = i + 1;
        }
        SequenceBuffer { sequence_num: 0, entry_sequences }
    }

    /// One past the newest inserted sequence number.
    pub fn sequence_num(&self) -> (r: SequenceNumber)
        ensures
            r == self.head(),
    {
        self.sequence_num
    }

    fn index(&self, s: SequenceNumber) -> (r: usize)
        requires
            self.wf(),
        ensures
            r == s % (self.cap() as u16),
            r < self.cap(),
    {
        (s % (self.entry_sequences.len() as u16)) as usize
    }

    /// Whether `s` is currently recorded.
    pub fn exists_seq(&self, s: SequenceNumber) -> (r: bool)
        requires
            self.wf(),
        ensures
            r == self.contains(s),
    {
        let index = self.index(s);
        match self.entry_sequences[index] {
            Some(e) => e == s,
            None => false,
        }
    }

    /// Records `s`. A number older than the whole window is ignored; a
    /// number newer than the head moves the head just past it and evicts
    /// what falls out of the window. `s` takes over its slot from any other
    /// number that shares it.
    pub fn insert(&mut self, s: SequenceNumber)
        requires
            old(self).wf(),
        ensures
            final(self).wf(),
            inserted(*old(self), *final(self), s),
    {
        let cap = self.entry_sequences.len() as u16;
        if sequence_less_than(s, self.sequence_num.wrapping_sub(cap)) {
            return;
        }
        let next = s.wrapping_add(1);
        if sequence_greater_than(next, self.sequence_num) {
            self.sequence_num = next;
            let mut i: usize = 0;
            while i < self.entry_sequences.len()
                invariant
                    self.sequence_num == next,
                    self.entry_sequences@.len() == cap,
                    old(self).entry_sequences@.len() == cap,
                    2 <= cap < 32768,
                    i <= cap,
                    forall|j: int|
                        0 <= j < cap ==> match #[trigger] self.entry_sequences@[j] {
                            Some(t) => t % cap == j && (j < i ==> in_window(next, cap as nat, t)),
                            None => true,
                        },
                    forall|j: int|
                        i <= j < cap ==> #[trigger] self.entry_sequences@[j]
                            == old(self).entry_sequences@[j],
                    forall|j: int|
                        0 <= j < i ==> #[trigger] self.entry_sequences@[j] == (match old(self).entry_sequences@[j] {
                            Some(t) => if in_window(next, cap as nat, t) {
                                Some(t)
                            } else {
                                None
                            },
                            None => None,
                        }),
                decreases cap - i,
            {
                if let Some(t) = self.entry_sequences[i] {
                    if next.wrapping_sub(t) == 0 || next.wrapping_sub(t) > cap {
                        self.entry_sequences.set(i, None);
                    }
                }
                i = i + 1;
            }
        }
        proof {
            lemma_accepted_in_window(old(self).sequence_num, cap as nat, s);
        }
        let index = self.index(s);
        self.entry_sequences.set(index, Some(s));
    }
}

/// `new` is `old` after recording `s`.
pub open spec fn inserted(old: SequenceBuffer, new: SequenceBuffer, s: u16) -> bool {
    &&& new.cap() == old.cap()
    &&& too_old(old.head(), old.cap(), s) ==> new == old
    &&& !too_old(old.head(), old.cap(), s) ==> {
        &&& new.head() == head_after(old.head(), s)
        &&& forall|t: u16| #[trigger]
            new.contains(t) == (t == s || (old.contains(t) && in_window(new.head(), new.cap(), t)
                && t % (old.cap() as u16) != s % (old.cap() as u16)))
    }
}

/// `s` lies before the whole window of `cap` numbers that ends at `head`.
pub open spec fn too_old(head: u16, cap: nat, s: u16) -> bool {
    seq_greater(seq_back(head, cap as int), s)
}

/// The head after recording `s`: just past `s` when that is newer.
pub open spec fn head_after(head: u16, s: u16) -> u16 {
    if seq_greater(seq_back(s, -1), head) {
        seq_back(s, -1)
    } else {
        head
    }
}

/// The largest of a non-empty list of sequence numbers, as integers.
pub open spec fn max_seq(rs: Seq<u16>) -> int
    decreases rs.len(),
{
    if rs.len() <= 1 {
        if rs.len() == 1 {
            rs[0] as int
        } else {
            -1
        }
    } else {
        let m = max_seq(rs.drop_last());
        if rs.last() as int > m {
            rs.last() as int
        } else {
            m
        }
    }
}

/// After a fresh 33-slot buffer records distinct sequence numbers `rs`,
/// one after the other (`bs[j + 1]` is `bs[j]` after recording `rs[j]`),
/// its head is one past the largest of them, and a number within the 33
/// before the head is recorded exactly when it is one of `rs`. Numbers are
/// kept below 32735, where wrap-around order agrees with integer order
/// from a head of 0.
pub proof fn lemma_receipts_recorded(bs: Seq<SequenceBuffer>, rs: Seq<u16>)
    requires
        bs.len() == rs.len() + 1,
        bs[0].cap() == 33,
        bs[0].head() == 0,
        forall|t: u16| !#[trigger] bs[0].contains(t),
        forall|j: int| 0 <= j < rs.len() ==> inserted(#[trigger] bs[j], bs[j + 1], rs[j]),
        forall|j: int| 0 <= j < rs.len() ==> #[trigger] rs[j] < 32735,
        forall|a: int, b: int| 0 <= a < b < rs.len() ==> #[trigger] rs[a] != #[trigger] rs[b],
    ensures
        bs.last().head() == max_seq(rs) + 1,
        bs.last().cap() == 33,
        rs.len() > 0 ==> 0 <= max_seq(rs) < 32735,
        forall|t: u16|
            in_window(bs.last().head(), 33, t) ==> (#[trigger] bs.last().contains(t) <==> rs.contains(t)),
        forall|t: u16| #[trigger] bs.last().contains(t) ==> in_window(bs.last().head(), 33, t),
    decreases rs.len(),
{
    lemma_max_seq_bounds(rs);
    if rs.len() == 0 {
        assert(max_seq(rs) == -1);
    } else {
        let k = (rs.len() - 1) as int;
        let prev = bs.drop_last();
        let rp = rs.drop_last();
        assert forall|j: int| 0 <= j < rp.len() implies inserted(#[trigger] prev[j], prev[j + 1], rp[j]) by {
            assert(inserted(bs[j], bs[j + 1], rs[j]));
        }
        assert forall|j: int| 0 <= j < rp.len() implies #[trigger] rp[j] < 32735 by {
            assert(rs[j] < 32735);
        }
        assert forall|a: int, b: int| 0 <= a < b < rp.len() implies #[trigger] rp[a] != #[trigger] rp[b] by {
            assert(rs[a] != rs[b]);
        }
        lemma_receipts_recorded(prev, rp);
        let old_b = bs[k];
        let new_b = bs[k + 1];
        let r = rs[k];
        assert(inserted(old_b, new_b, r));
        assert(r < 32735);
        let m = max_seq(rp);
        assert(prev.last() == old_b);
        lemma_max_seq_bounds(rp);
        assert(!rp.contains(r)) by {
            if rp.contains(r) {
                let a = choose|a: int| 0 <= a < rp.len() && rp[a] == r;
                assert(rs[a] != rs[k]);
            }
        }
        assert(rs =~= rp.push(r));
        assert(max_seq(rs) == if r as int > m { r as int } else { m });
        if r as int > m {
            lemma_receipt_newest(old_b, new_b, r, rp, m);
        } else {
            lemma_receipt_older(old_b, new_b, r, rp, m);
        }
    }
}

proof fn lemma_receipt_newest(old_b: SequenceBuffer, new_b: SequenceBuffer, r: u16, rp: Seq<u16>, m: int)
    requires
        inserted(old_b, new_b, r),
        old_b.cap() == 33,
        old_b.head() == m + 1,
        -1 <= m < r < 32735,
        forall|t: u16| rp.contains(t) ==> t as int <= m,
        forall|t: u16| in_window(old_b.head(), 33, t) ==> (#[trigger] old_b.contains(t) <==> rp.contains(t)),
        forall|t: u16| #[trigger] old_b.contains(t) ==> in_window(old_b.head(), 33, t),
    ensures
        new_b.head() == r + 1,
        new_b.cap() == 33,
        forall|t: u16| in_window(new_b.head(), 33, t) ==> (#[trigger] new_b.contains(t) <==> rp.push(r).contains(t)),
        forall|t: u16| #[trigger] new_b.contains(t) ==> in_window(new_b.head(), 33, t),
{
    let h = old_b.head();
    assert(seq_back(h, 33) == (if m + 1 >= 33 { m + 1 - 33 } else { m + 1 - 33 + 65536 }));
    assert(!too_old(h, 33, r));
    assert(seq_back(r, -1) == r + 1);
    assert(new_b.head() == r + 1);
    assert forall|t: u16| in_window(new_b.head(), 33, t) implies (#[trigger] new_b.contains(t)
        <==> rp.push(r).contains(t)) by {
        assert(rp.push(r).contains(t) <==> (t == r || rp.contains(t))) by {
            if rp.push(r).contains(t) && t != r {
                let a = choose|a: int| 0 <= a < rp.push(r).len() && rp.push(r)[a] == t;
                assert(rp[a] == t);
            }
            if rp.contains(t) {
                let a = choose|a: int| 0 <= a < rp.len() && rp[a] == t;
                assert(rp.push(r)[a] == t);
            }
            if t == r {
                assert(rp.push(r)[rp.len() as int] == r);
            }
        }
        if t != r {
            if rp.contains(t) {
                assert(t as int <= m);
                assert(seq_diff(h, t) == m + 1 - t);
                assert(seq_diff((r + 1) as u16, t) == r + 1 - t);
                assert(in_window(h, 33, t));
                assert(old_b.contains(t));
                lemma_distinct_slots(t, r);
                assert(new_b.contains(t));
            } else {
                assert(!old_b.contains(t));
                assert(!new_b.contains(t));
            }
        } else {
            assert(new_b.contains(t));
        }
    }
}

proof fn lemma_receipt_older(old_b: SequenceBuffer, new_b: SequenceBuffer, r: u16, rp: Seq<u16>, m: int)
    requires
        inserted(old_b, new_b, r),
        old_b.cap() == 33,
        old_b.head() == m + 1,
        0 <= r < m < 32735,
        !rp.contains(r),
        forall|t: u16| rp.contains(t) ==> t as int <= m,
        forall|t: u16| in_window(old_b.head(), 33, t) ==> (#[trigger] old_b.contains(t) <==> rp.contains(t)),
        forall|t: u16| #[trigger] old_b.contains(t) ==> in_window(old_b.head(), 33, t),
    ensures
        new_b.head() == m + 1,
        new_b.cap() == 33,
        forall|t: u16| in_window(new_b.head(), 33, t) ==> (#[trigger] new_b.contains(t) <==> rp.push(r).contains(t)),
        forall|t: u16| #[trigger] new_b.contains(t) ==> in_window(new_b.head(), 33, t),
{
    let h = old_b.head();
    assert(seq_back(h, 33) == (if m + 1 >= 33 { m + 1 - 33 } else { m + 1 - 33 + 65536 }));
    assert(seq_back(r, -1) == r + 1);
    assert(!seq_greater(seq_back(r, -1), h));
    assert forall|t: u16| in_window(new_b.head(), 33, t) implies (#[trigger] new_b.contains(t)
        <==> rp.push(r).contains(t)) by {
        assert(rp.push(r).contains(t) <==> (t == r || rp.contains(t))) by {
            if rp.push(r).contains(t) && t != r {
                let a = choose|a: int| 0 <= a < rp.push(r).len() && rp.push(r)[a] == t;
                assert(rp[a] == t);
            }
            if rp.contains(t) {
                let a = choose|a: int| 0 <= a < rp.len() && rp[a] == t;
                assert(rp.push(r)[a] == t);
            }
            if t == r {
                assert(rp.push(r)[rp.len() as int] == r);
            }
        }
        if too_old(h, 33, r) {
            assert(!in_window(h, 33, r));
            assert(new_b == old_b);
            if t == r {
                assert(!in_window(new_b.head(), 33, t));
            }
        } else {
            assert(new_b.head() == h);
            if t != r {
                if rp.contains(t) {
                    assert(t as int <= m);
                    assert(seq_diff(h, t) == m + 1 - t);
                    assert(old_b.contains(t));
                    if t < r {
                        lemma_distinct_slots(t, r);
                    } else {
                        lemma_distinct_slots(r, t);
                    }
                    assert(new_b.contains(t));
                } else {
                    assert(!old_b.contains(t));
                    assert(!new_b.contains(t));
                }
            } else {
                assert(new_b.contains(t));
            }
        }
    }
    assert forall|t: u16| #[trigger] new_b.contains(t) implies in_window(new_b.head(), 33, t) by {
        if t == r && !too_old(h, 33, r) {
            lemma_accepted_in_window(h, 33, r);
        }
    }
}

proof fn lemma_distinct_slots(a: u16, b: u16)
    requires
        a < b,
        b - a <= 32,
    ensures
        a % 33 != b % 33,
{
    let q = (b / 33 - a / 33) as int;
    assert(a as int == 33 * (a / 33) + a % 33) by (nonlinear_arith);
    assert(b as int == 33 * (b / 33) + b % 33) by (nonlinear_arith);
    if a % 33 == b % 33 {
        assert(b - a == 33 * q) by (nonlinear_arith)
            requires
                a as int == 33 * (a / 33) + a % 33,
                b as int == 33 * (b / 33) + b % 33,
                a % 33 == b % 33,
                q == b / 33 - a / 33,
        ;
        assert(false) by (nonlinear_arith)
            requires
                b - a == 33 * q,
                0 < b - a <= 32,
        ;
    }
}

proof fn lemma_max_seq_bounds(rs: Seq<u16>)
    ensures
        max_seq(rs) >= -1,
        max_seq(rs) < 65536,
        rs.len() > 0 ==> rs.contains(max_seq(rs) as u16) && max_seq(rs) >= 0,
        forall|t: u16| rs.contains(t) ==> t as int <= max_seq(rs),
        (forall|j: int| 0 <= j < rs.len() ==> #[trigger] rs[j] < 32735) ==> max_seq(rs) < 32735,
    decreases rs.len(),
{
    if rs.len() > 1 {
        lemma_max_seq_bounds(rs.drop_last());
        assert(rs =~= rs.drop_last().push(rs.last()));
        assert forall|t: u16| rs.contains(t) implies t as int <= max_seq(rs) by {
            if t != rs.last() {
                let a = choose|a: int| 0 <= a < rs.len() && rs[a] == t;
                assert(a < rs.len() - 1);
                assert(rs.drop_last()[a] == t);
                assert(rs.drop_last().contains(t));
            }
        }
        if max_seq(rs) == rs.last() as int {
            assert(rs[rs.len() - 1] == rs.last());
        } else {
            let a = choose|a: int| 0 <= a < rs.len() - 1 && rs.drop_last()[a] == max_seq(rs) as u16;
            assert(rs[a] == max_seq(rs) as u16);
        }
        if forall|j: int| 0 <= j < rs.len() ==> #[trigger] rs[j] < 32735 {
            assert forall|j: int| 0 <= j < rs.drop_last().len() implies #[trigger] rs.drop_last()[j] < 32735 by {
                assert(rs[j] < 32735);
            }
        }
    } else if rs.len() == 1 {
        assert forall|t: u16| rs.contains(t) implies t as int <= max_seq(rs) by {
            let a = choose|a: int| 0 <= a < rs.len() && rs[a] == t;
            assert(a == 0);
        }
        assert(rs[0] == rs[0]);
        if forall|j: int| 0 <= j < rs.len() ==> #[trigger] rs[j] < 32735 {
            assert(rs[0] < 32735);
        }
    }
}

proof fn lemma_accepted_in_window(head: u16, cap: nat, s: u16)
    requires
        2 <= cap < 32768,
        !too_old(head, cap, s),
    ensures
        in_window(head_after(head, s), cap, s),
{
    let next: u16 = if s == 65535 { 0 } else { (s + 1) as u16 };
    assert(seq_back(s, -1) == next);
    let low: u16 = if head >= cap { (head - cap) as u16 } else { (head - cap + 65536) as u16 };
    assert(seq_back(head, cap as int) == low);
    let x = seq_diff(head, s);
    assert(seq_diff(next, head) == (if x <= 1 { 1 - x } else { 65537 - x }));
    assert(seq_diff(low, s) == (if x >= cap { x - cap } else { x - cap + 65536 }));
}

} // verus!
