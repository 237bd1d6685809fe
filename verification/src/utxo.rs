//! Unspent transaction outputs and the ordered set that holds them.

use vstd::prelude::*;
use crate::bigint::{
    be_value, lemma_be_value_injective, lemma_be_value_nonnegative, lemma_be_value_order,
};

verus! {

/// Reference to an output of an earlier transaction.
#[derive(Clone, Copy, Debug, PartialEq, Eq)]
pub struct OutPoint {
    /// Identifier of the transaction that made the output.
    pub txid: [u8; 32],
    /// Position of the output in that transaction.
    pub vout: u32,
}

impl OutPoint {
    /// The place of this outpoint in the byte order of outpoints: the txid
    /// read big-endian, then the output index.
    pub open spec fn key(self) -> int {
        be_value(self.txid@) * 0x1_0000_0000 + self.vout
    }

    /// Distinct outpoints have distinct places in the order.
    pub proof fn lemma_key_injective(self, other: OutPoint)
        requires
            self.key() == other.key(),
        ensures
            self == other,
    {
        let x = be_value(self.txid@);
        let y = be_value(other.txid@);
        lemma_be_value_nonnegative(self.txid@);
        lemma_be_value_nonnegative(other.txid@);
        assert(x == y && self.vout == other.vout) by (nonlinear_arith)
            requires
                x * 0x1_0000_0000 + self.vout == y * 0x1_0000_0000 + other.vout,
                0 <= self.vout < 0x1_0000_0000,
                0 <= other.vout < 0x1_0000_0000,
        ;
        lemma_be_value_injective(self.txid@, other.txid@);
        assert(self.txid == other.txid);
    }

    /// Whether the two outpoints are the same.
    pub fn same(&self, other: &OutPoint) -> (r: bool)
        ensures
            r == (*self == *other),
    {
        if self.vout != other.vout {
            return false;
        }
        let mut i: usize = 0;
        while i < 32
            invariant
                i <= 32,
                forall|j: int| 0 <= j < i ==> self.txid@[j] == other.txid@[j],
            decreases 32 - i,
        {
            if self.txid[i] != other.txid[i] {
                return false;
            }
            i = i + 1;
        }
        assert(self.txid@ =~= other.txid@);
        assert(self.txid =~= other.txid);
        true
    }

    /// Whether this outpoint comes before `other` in the order of outpoints.
    pub fn precedes(&self, other: &OutPoint) -> (r: bool)
        ensures
            r == (self.key() < other.key()),
    {
        let mut i: usize = 0;
        while i < 32
            invariant
                i <= 32,
                forall|j: int| 0 <= j < i ==> self.txid@[j] == other.txid@[j],
            decreases 32 - i,
        {
            let x: u8 = self.txid[i];
            let y: u8 = other.txid[i];
            if x != y {
                proof {
                    let a = self.txid@;
                    let b = other.txid@;
                    assert(a.take(32) =~= a);
                    assert(b.take(32) =~= b);
                    if x < y {
                        lemma_be_value_order(a, b, i as int, 32);
                    } else {
                        lemma_be_value_order(b, a, i as int, 32);
                    }
                }
                return x < y;
            }
            i = i + 1;
        }
        assert(self.txid@ =~= other.txid@);
        assert(self.txid =~= other.txid);
        self.vout < other.vout
    }
}

/// An unspent output: where it is, and how many satoshi it holds.
#[derive(Clone, Copy, Debug, PartialEq, Eq)]
pub struct Utxo {
    pub outpoint: OutPoint,
    pub value: u64,
}

impl Utxo {
    /// Whether the two outputs are the same, place and value.
    pub fn same(&self, other: &Utxo) -> (r: bool)
        ensures
            r == (*self == *other),
    {
        self.value == other.value && self.outpoint.same(&other.outpoint)
    }
}

/// Sum of the values of a sequence of outputs.
pub open spec fn total_value(s: Seq<Utxo>) -> int
    decreases s.len(),
{
    if s.len() == 0 {
        0
    } else {
        total_value(s.drop_last()) + s.last().value
    }
}

/// Outputs in strictly ascending order of their outpoints.
pub open spec fn strictly_ordered(s: Seq<Utxo>) -> bool {
    forall|i: int, j: int|
        0 <= i < j < s.len() ==> (#[trigger] s[i]).outpoint.key() < (#[trigger] s[j]).outpoint.key()
}

/// Whether some output of the sequence sits at the given outpoint.
pub open spec fn holds_outpoint(s: Seq<Utxo>, o: OutPoint) -> bool {
    exists|i: int| 0 <= i < s.len() && (#[trigger] s[i]).outpoint == o
}

/// Number of outputs of a sequence whose place in the order is before `k`.
pub open spec fn rank(s: Seq<Utxo>, k: int) -> int
    decreases s.len(),
{
    if s.len() == 0 {
        0
    } else {
        rank(s.drop_last(), k) + if s.last().outpoint.key() < k {
            1int
        } else {
            0int
        }
    }
}

/// A sequence in order with one more output put in at its place.
pub open spec fn inserted(s: Seq<Utxo>, u: Utxo) -> Seq<Utxo> {
    s.insert(rank(s, u.outpoint.key()), u)
}

/// A sequence in order with more outputs put in, one after the other.
pub open spec fn merged(s: Seq<Utxo>, more: Seq<Utxo>) -> Seq<Utxo>
    decreases more.len(),
{
    if more.len() == 0 {
        s
    } else {
        inserted(merged(s, more.drop_last()), more.last())
    }
}

/// In a sequence in order, the outputs before a given place are those at
/// the positions below the first output that is not before it.
pub proof fn lemma_rank(s: Seq<Utxo>, k: int, p: int)
    requires
        strictly_ordered(s),
        0 <= p <= s.len(),
        forall|j: int| 0 <= j < p ==> (#[trigger] s[j]).outpoint.key() < k,
        p < s.len() ==> s[p].outpoint.key() >= k,
    ensures
        rank(s, k) == p,
    decreases s.len(),
{
    if s.len() > 0 {
        let d = s.drop_last();
        assert forall|i: int, j: int| 0 <= i < j < d.len() implies (#[trigger] d[i]).outpoint.key() < (
        #[trigger] d[j]).outpoint.key() by {
            assert(s[i].outpoint.key() < s[j].outpoint.key());
        }
        if p == s.len() {
            lemma_rank(d, k, p - 1);
        } else {
            if p < s.len() - 1 {
                assert(s[p].outpoint.key() < s[s.len() - 1].outpoint.key());
            }
            lemma_rank(d, k, p);
        }
    }
}

/// In a sequence in order, the outputs before a given place are exactly
/// those at the positions below its rank.
pub proof fn lemma_rank_splits(s: Seq<Utxo>, k: int)
    requires
        strictly_ordered(s),
    ensures
        0 <= rank(s, k) <= s.len(),
        forall|j: int| 0 <= j < s.len() ==> ((#[trigger] s[j]).outpoint.key() < k <==> j < rank(s, k)),
    decreases s.len(),
{
    if s.len() > 0 {
        let d = s.drop_last();
        assert forall|i: int, j: int| 0 <= i < j < d.len() implies (#[trigger] d[i]).outpoint.key() < (
        #[trigger] d[j]).outpoint.key() by {
            assert(s[i].outpoint.key() < s[j].outpoint.key());
        }
        lemma_rank_splits(d, k);
        assert forall|j: int| 0 <= j < s.len() implies ((#[trigger] s[j]).outpoint.key() < k <==> j
            < rank(s, k)) by {
            let last = s.len() - 1;
            if j < last {
                assert(d[j] == s[j]);
                assert(s[j].outpoint.key() < s[last].outpoint.key());
            }
            if rank(d, k) < d.len() {
                assert(d[rank(d, k)] == s[rank(d, k)]);
                assert(s[rank(d, k)].outpoint.key() < s[last].outpoint.key());
            }
        }
    }
}

/// Putting an output at a new outpoint into a sequence in order keeps the
/// order and adds just that output.
pub proof fn lemma_inserted(s: Seq<Utxo>, u: Utxo)
    requires
        strictly_ordered(s),
        !holds_outpoint(s, u.outpoint),
    ensures
        strictly_ordered(inserted(s, u)),
        forall|x: Utxo| inserted(s, u).contains(x) <==> (s.contains(x) || x == u),
        inserted(s, u).len() == s.len() + 1,
{
    let k = u.outpoint.key();
    let p = rank(s, k);
    lemma_rank_splits(s, k);
    lemma_insert_members(s, p, u);
    let t = s.insert(p, u);
    assert forall|i: int, j: int| 0 <= i < j < t.len() implies (#[trigger] t[i]).outpoint.key() < (
    #[trigger] t[j]).outpoint.key() by {
        if j < p {
            assert(s[i].outpoint.key() < s[j].outpoint.key());
        } else if j == p {
            assert(s[i].outpoint.key() < k);
        } else if i == p {
            assert(!(s[j - 1].outpoint.key() < k));
            if s[j - 1].outpoint.key() == k {
                s[j - 1].outpoint.lemma_key_injective(u.outpoint);
            }
        } else if i < p {
            assert(s[i].outpoint.key() < s[j - 1].outpoint.key());
        } else {
            assert(s[i - 1].outpoint.key() < s[j - 1].outpoint.key());
        }
    }
}

/// Putting outputs at new outpoints of their own into a sequence in order
/// keeps the order and adds just those outputs.
pub proof fn lemma_merged(s: Seq<Utxo>, more: Seq<Utxo>)
    requires
        strictly_ordered(s),
        distinct_outpoints(more),
        disjoint_outpoints(more, s),
    ensures
        strictly_ordered(merged(s, more)),
        union_of(merged(s, more), s, more),
        merged(s, more).len() == s.len() + more.len(),
    decreases more.len(),
{
    if more.len() > 0 {
        let d = more.drop_last();
        let u = more.last();
        assert forall|i: int, j: int| 0 <= i < j < d.len() implies (#[trigger] d[i]).outpoint != (
        #[trigger] d[j]).outpoint by {
            assert(more[i].outpoint != more[j].outpoint);
        }
        assert forall|i: int| 0 <= i < d.len() implies !holds_outpoint(s, (#[trigger] d[i]).outpoint) by {
            assert(!holds_outpoint(s, more[i].outpoint));
        }
        lemma_merged(s, d);
        let m = merged(s, d);
        assert(!holds_outpoint(m, u.outpoint)) by {
            if holds_outpoint(m, u.outpoint) {
                let q = choose|q: int| 0 <= q < m.len() && (#[trigger] m[q]).outpoint == u.outpoint;
                assert(m.contains(m[q]));
                if s.contains(m[q]) {
                    let a = choose|a: int| 0 <= a < s.len() && s[a] == m[q];
                    assert(s[a].outpoint == u.outpoint);
                    assert(!holds_outpoint(s, more[more.len() - 1].outpoint));
                } else {
                    let a = choose|a: int| 0 <= a < d.len() && d[a] == m[q];
                    assert(more[a].outpoint != more[more.len() - 1].outpoint);
                }
            }
        }
        lemma_inserted(m, u);
        let out = merged(s, more);
        assert(out == inserted(m, u));
        assert forall|x: Utxo| #[trigger] out.contains(x) <==> (s.contains(x) || more.contains(x)) by {
            assert(inserted(m, u).contains(x) <==> (m.contains(x) || x == u));
            assert(m.contains(x) <==> (s.contains(x) || d.contains(x)));
            if d.contains(x) {
                let a = choose|a: int| 0 <= a < d.len() && d[a] == x;
                assert(more[a] == x);
            }
            if more.contains(x) {
                let a = choose|a: int| 0 <= a < more.len() && more[a] == x;
                if a < d.len() {
                    assert(d[a] == x);
                }
            }
            assert(more[more.len() - 1] == u);
        }
    }
}

/// Putting an output into a sequence adds its value to the total.
pub proof fn lemma_total_value_insert(s: Seq<Utxo>, p: int, u: Utxo)
    requires
        0 <= p <= s.len(),
    ensures
        total_value(s.insert(p, u)) == total_value(s) + u.value,
    decreases s.len(),
{
    let t = s.insert(p, u);
    if p == s.len() {
        assert(t.drop_last() =~= s);
    } else {
        lemma_total_value_insert(s.drop_last(), p, u);
        assert(t.drop_last() =~= s.drop_last().insert(p, u));
    }
}

/// Taking an output out of a sequence takes its value from the total.
pub proof fn lemma_total_value_remove(s: Seq<Utxo>, i: int)
    requires
        0 <= i < s.len(),
    ensures
        total_value(s.remove(i)) == total_value(s) - s[i].value,
    decreases s.len(),
{
    let t = s.remove(i);
    if i == s.len() - 1 {
        assert(t =~= s.drop_last());
    } else {
        lemma_total_value_remove(s.drop_last(), i);
        assert(t.drop_last() =~= s.drop_last().remove(i));
    }
}

pub proof fn lemma_total_value_nonnegative(s: Seq<Utxo>)
    ensures
        total_value(s) >= 0,
    decreases s.len(),
{
    if s.len() > 0 {
        lemma_total_value_nonnegative(s.drop_last());
    }
}

/// A set of unspent outputs, at most one for each outpoint, kept in the order
/// of the outpoints.
#[derive(Clone, Debug, PartialEq, Eq)]
pub struct UtxoSet {
    items: Vec<Utxo>,
}

impl View for UtxoSet {
    type V = Seq<Utxo>;

    closed spec fn view(&self) -> Seq<Utxo> {
        self.items@
    }
}

impl UtxoSet {
    /// The outputs stand in strictly ascending order of their outpoints, so
    /// no outpoint occurs twice.
    pub open spec fn wf(&self) -> bool {
        strictly_ordered(self@)
    }

    /// The empty set.
    pub fn new() -> (s: UtxoSet)
        ensures
            s.wf(),
            s@ == Seq::<Utxo>::empty(),
    {
        UtxoSet { items: Vec::new() }
    }

    /// Number of outputs in the set.
    pub fn len(&self) -> (n: usize)
        ensures
            n == self@.len(),
    {
        self.items.len()
    }

    /// Whether the set holds no output.
    pub fn is_empty(&self) -> (r: bool)
        ensures
            r == (self@.len() == 0),
    {
        self.items.len() == 0
    }

    /// The output at position `i` of the order.
    pub fn get(&self, i: usize) -> (u: Utxo)
        requires
            i < self@.len(),
        ensures
            u == self@[i as int],
    {
        self.items[i]
    }

    /// A copy of the set.
    pub fn snapshot(&self) -> (copy: UtxoSet)
        ensures
            copy@ == self@,
    {
        UtxoSet { items: self.to_vec() }
    }

    /// The outputs in order.
    pub fn to_vec(&self) -> (v: Vec<Utxo>)
        ensures
            v@ == self@,
    {
        let mut v: Vec<Utxo> = Vec::new();
        let mut i: usize = 0;
        while i < self.items.len()
            invariant
                i <= self.items@.len(),
                v@ == self.items@.take(i as int),
            decreases self.items@.len() - i,
        {
            v.push(self.items[i]);
            assert(self.items@.take(i + 1) =~= self.items@.take(i as int).push(self.items@[i as int]));
            i = i + 1;
        }
        assert(self.items@.take(i as int) =~= self.items@);
        v
    }

    /// Position of the output that sits at the given outpoint, if there is one.
    pub fn position(&self, o: &OutPoint) -> (r: Option<usize>)
        ensures
            match r {
                Some(i) => i < self@.len() && self@[i as int].outpoint == *o,
                None => !holds_outpoint(self@, *o),
            },
    {
        let mut i: usize = 0;
        while i < self.items.len()
            invariant
                i <= self.items@.len(),
                forall|j: int| 0 <= j < i ==> (#[trigger] self.items@[j]).outpoint != *o,
            decreases self.items@.len() - i,
        {
            if self.items[i].outpoint.same(o) {
                return Some(i);
            }
            i = i + 1;
        }
        None
    }

    /// Whether the set holds this very output, outpoint and value.
    pub fn contains(&self, u: &Utxo) -> (r: bool)
        ensures
            r == self@.contains(*u),
    {
        let mut i: usize = 0;
        while i < self.items.len()
            invariant
                i <= self.items@.len(),
                forall|j: int| 0 <= j < i ==> self.items@[j] != *u,
            decreases self.items@.len() - i,
        {
            if self.items[i].same(u) {
                return true;
            }
            i = i + 1;
        }
        false
    }

    /// Adds an output, unless one sits at its outpoint already. Says whether
    /// the output was added.
    pub fn insert(&mut self, u: Utxo) -> (added: bool)
        requires
            old(self).wf(),
        ensures
            final(self).wf(),
            added == !holds_outpoint(old(self)@, u.outpoint),
            added ==> final(self)@ == inserted(old(self)@, u),
            added ==> final(self)@.len() == old(self)@.len() + 1,
            added ==> with_member(final(self)@, old(self)@, u),
            added ==> total_value(final(self)@) == total_value(old(self)@) + u.value,
            !added ==> final(self)@ == old(self)@,
    {
        let mut p: usize = 0;
        while p < self.items.len() && self.items[p].outpoint.precedes(&u.outpoint)
            invariant
                p <= self.items@.len(),
                forall|j: int|
                    0 <= j < p ==> (#[trigger] self.items@[j]).outpoint.key() < u.outpoint.key(),
            decreases self.items@.len() - p,
        {
            p = p + 1;
        }
        if p < self.items.len() && self.items[p].outpoint.same(&u.outpoint) {
            return false;
        }
        proof {
            let s = self.items@;
            if p < s.len() {
                if s[p as int].outpoint.key() == u.outpoint.key() {
                    s[p as int].outpoint.lemma_key_injective(u.outpoint);
                }
            }
            assert forall|i: int| 0 <= i < s.len() implies (#[trigger] s[i]).outpoint
                != u.outpoint by {
                if i > p {
                    assert(s[p as int].outpoint.key() < s[i].outpoint.key());
                }
            }
            let t = s.insert(p as int, u);
            assert forall|i: int, j: int| 0 <= i < j < t.len() implies (#[trigger] t[i]).outpoint.key()
                < (#[trigger] t[j]).outpoint.key() by {
                if i < p && j > p {
                    assert(s[i].outpoint.key() < s[j - 1].outpoint.key());
                } else if i > p {
                    assert(s[i - 1].outpoint.key() < s[j - 1].outpoint.key());
                } else if i == p && j > p + 1 {
                    assert(s[p as int].outpoint.key() < s[j - 1].outpoint.key());
                }
            }
        }
        proof {
            lemma_insert_members(self.items@, p as int, u);
            lemma_total_value_insert(self.items@, p as int, u);
            lemma_rank(self.items@, u.outpoint.key(), p as int);
        }
        let ghost before = self.items@;
        self.items.insert(p, u);
        proof {
            let after = before.insert(p as int, u);
            assert(self.items@ == after);
            assert forall|x: Utxo| #[trigger]
                self.items@.contains(x) <==> (before.contains(x) || x == u) by {
                assert(after.contains(x) <==> (before.contains(x) || x == u));
            }
            assert(with_member(self.items@, before, u));
        }
        true
    }

    /// Adds outputs that sit at outpoints of their own, different from one
    /// another and from those of the set.
    pub fn insert_all(&mut self, utxos: &Vec<Utxo>)
        requires
            old(self).wf(),
            distinct_outpoints(utxos@),
            disjoint_outpoints(utxos@, old(self)@),
        ensures
            final(self).wf(),
            final(self)@ == merged(old(self)@, utxos@),
            union_of(final(self)@, old(self)@, utxos@),
            total_value(final(self)@) == total_value(old(self)@) + total_value(utxos@),
            final(self)@.len() == old(self)@.len() + utxos@.len(),
    {
        let mut i: usize = 0;
        assert(utxos@.take(0) =~= Seq::<Utxo>::empty());
        while i < utxos.len()
            invariant
                i <= utxos@.len(),
                self.wf(),
                distinct_outpoints(utxos@),
                forall|k: int| i <= k < utxos@.len() ==> !holds_outpoint(self@, (#[trigger] utxos@[k]).outpoint),
                forall|x: Utxo|
                    self@.contains(x) <==> (old(self)@.contains(x) || utxos@.take(i as int).contains(
                        x,
                    )),
                total_value(self@) == total_value(old(self)@) + total_value(utxos@.take(i as int)),
                self@.len() == old(self)@.len() + i,
                self@ == merged(old(self)@, utxos@.take(i as int)),
            decreases utxos@.len() - i,
        {
            let ghost before = self@;
            let u: Utxo = utxos[i];
            let added: bool = self.insert(u);
            proof {
                assert(added);
                let done = utxos@.take(i as int);
                let next = utxos@.take(i + 1);
                assert(next.drop_last() =~= done);
                assert forall|x: Utxo| next.contains(x) <==> (done.contains(x) || x == u) by {
                    if next.contains(x) {
                        let k = choose|k: int| 0 <= k < next.len() && next[k] == x;
                        if k < i {
                            assert(done[k] == x);
                        }
                    }
                    if done.contains(x) {
                        let k = choose|k: int| 0 <= k < done.len() && done[k] == x;
                        assert(next[k] == x);
                    }
                    if x == u {
                        assert(next[i as int] == x);
                    }
                }
                assert forall|k: int| i + 1 <= k < utxos@.len() implies !holds_outpoint(
                    self@,
                    (#[trigger] utxos@[k]).outpoint,
                ) by {
                    if holds_outpoint(self@, utxos@[k].outpoint) {
                        let m = choose|m: int|
                            0 <= m < self@.len() && (#[trigger] self@[m]).outpoint
                                == utxos@[k].outpoint;
                        let x = self@[m];
                        assert(self@.contains(x));
                        if x == u {
                            assert(utxos@[i as int].outpoint != utxos@[k].outpoint);
                        } else {
                            assert(before.contains(x));
                            let q = choose|q: int| 0 <= q < before.len() && before[q] == x;
                            assert(before[q].outpoint == utxos@[k].outpoint);
                            assert(holds_outpoint(before, utxos@[k].outpoint));
                        }
                    }
                }
            }
            i = i + 1;
        }
        assert(utxos@.take(i as int) =~= utxos@);
    }

    /// Takes out the output at position `i` of the order.
    pub fn remove_at(&mut self, i: usize) -> (u: Utxo)
        requires
            old(self).wf(),
            i < old(self)@.len(),
        ensures
            final(self).wf(),
            u == old(self)@[i as int],
            final(self)@ == old(self)@.remove(i as int),
    {
        proof {
            lemma_remove_keeps_order(self.items@, i as int);
        }
        self.items.remove(i)
    }

    /// Takes out this very output, if the set holds it. Says whether it did.
    pub fn remove(&mut self, u: &Utxo) -> (removed: bool)
        requires
            old(self).wf(),
        ensures
            final(self).wf(),
            removed == old(self)@.contains(*u),
            removed ==> exists|i: int|
                0 <= i < old(self)@.len() && old(self)@[i] == *u && final(self)@
                    == #[trigger] old(self)@.remove(i),
            !removed ==> final(self)@ == old(self)@,
    {
        match self.position(&u.outpoint) {
            Some(i) => {
                if self.items[i].same(u) {
                    let _ = self.remove_at(i);
                    true
                } else {
                    proof {
                        let s = self.items@;
                        assert forall|j: int| 0 <= j < s.len() implies s[j] != *u by {
                            if s[j] == *u && j != i {
                                if j < i {
                                    assert(s[j].outpoint.key() < s[i as int].outpoint.key());
                                } else {
                                    assert(s[i as int].outpoint.key() < s[j].outpoint.key());
                                }
                            }
                        }
                    }
                    false
                }
            },
            None => {
                false
            },
        }
    }
}

/// A sequence in order stays in order when one output leaves.
pub proof fn lemma_remove_keeps_order(s: Seq<Utxo>, i: int)
    requires
        strictly_ordered(s),
        0 <= i < s.len(),
    ensures
        strictly_ordered(s.remove(i)),
{
    let t = s.remove(i);
    assert forall|a: int, b: int| 0 <= a < b < t.len() implies (#[trigger] t[a]).outpoint.key() < (
    #[trigger] t[b]).outpoint.key() by {
        let a2 = if a < i { a } else { a + 1 };
        let b2 = if b < i { b } else { b + 1 };
        assert(s[a2].outpoint.key() < s[b2].outpoint.key());
    }
}

/// Whether `whole` holds the outputs of `s` and the output `u`, and no others.
pub open spec fn with_member(whole: Seq<Utxo>, s: Seq<Utxo>, u: Utxo) -> bool {
    forall|x: Utxo| #[trigger] whole.contains(x) <==> (s.contains(x) || x == u)
}

/// Whether `whole` holds the outputs of `a` and those of `b`, and no others.
pub open spec fn union_of(whole: Seq<Utxo>, a: Seq<Utxo>, b: Seq<Utxo>) -> bool {
    forall|x: Utxo| #[trigger] whole.contains(x) <==> (a.contains(x) || b.contains(x))
}

/// Whether two sequences hold the same outputs, in whatever order.
pub open spec fn same_members(a: Seq<Utxo>, b: Seq<Utxo>) -> bool {
    forall|x: Utxo| a.contains(x) <==> b.contains(x)
}

/// What a sequence holds once an output has been put in at some position.
pub proof fn lemma_insert_members(s: Seq<Utxo>, p: int, u: Utxo)
    requires
        0 <= p <= s.len(),
    ensures
        forall|x: Utxo| s.insert(p, u).contains(x) <==> (s.contains(x) || x == u),
{
    let t = s.insert(p, u);
    assert forall|x: Utxo| t.contains(x) <==> (s.contains(x) || x == u) by {
        if t.contains(x) {
            let i = choose|i: int| 0 <= i < t.len() && t[i] == x;
            if i < p {
                assert(s[i] == x);
            } else if i > p {
                assert(s[i - 1] == x);
            }
        }
        if s.contains(x) {
            let i = choose|i: int| 0 <= i < s.len() && s[i] == x;
            if i < p {
                assert(t[i] == x);
            } else {
                assert(t[i + 1] == x);
            }
        }
        if x == u {
            assert(t[p] == x);
        }
    }
}

/// What a sequence in order holds once the output at some position is gone.
pub proof fn lemma_remove_members(s: Seq<Utxo>, i: int)
    requires
        strictly_ordered(s),
        0 <= i < s.len(),
    ensures
        forall|x: Utxo| s.remove(i).contains(x) <==> (s.contains(x) && x != s[i]),
        !holds_outpoint(s.remove(i), s[i].outpoint),
{
    let t = s.remove(i);
    assert forall|x: Utxo| t.contains(x) <==> (s.contains(x) && x != s[i]) by {
        if t.contains(x) {
            let k = choose|k: int| 0 <= k < t.len() && t[k] == x;
            if k < i {
                assert(s[k] == x);
                assert(s[k].outpoint.key() < s[i].outpoint.key());
            } else {
                assert(s[k + 1] == x);
                assert(s[i].outpoint.key() < s[k + 1].outpoint.key());
            }
        }
        if s.contains(x) && x != s[i] {
            let k = choose|k: int| 0 <= k < s.len() && s[k] == x;
            if k < i {
                assert(t[k] == x);
            } else {
                assert(t[k - 1] == x);
            }
        }
    }
    assert forall|k: int| 0 <= k < t.len() implies (#[trigger] t[k]).outpoint != s[i].outpoint by {
        if k < i {
            assert(s[k].outpoint.key() < s[i].outpoint.key());
        } else {
            assert(s[i].outpoint.key() < s[k + 1].outpoint.key());
        }
    }
}

/// A set of outputs has one order only: two sequences in order that hold the
/// same outputs are the same sequence.
pub proof fn lemma_ordered_unique(a: Seq<Utxo>, b: Seq<Utxo>)
    requires
        strictly_ordered(a),
        strictly_ordered(b),
        same_members(a, b),
    ensures
        a == b,
    decreases a.len(),
{
    if a.len() == 0 {
        if b.len() > 0 {
            assert(b.contains(b[0]));
            assert(a.contains(b[0]));
        }
        assert(a =~= b);
    } else {
        let la = a.last();
        assert(a.contains(la));
        assert(b.contains(la));
        let j = choose|j: int| 0 <= j < b.len() && b[j] == la;
        let lb = b.last();
        assert(b.contains(lb));
        assert(a.contains(lb));
        let k = choose|k: int| 0 <= k < a.len() && a[k] == lb;
        if j < b.len() - 1 {
            assert(b[j].outpoint.key() < lb.outpoint.key());
            if k < a.len() - 1 {
                assert(a[k].outpoint.key() < la.outpoint.key());
            }
            assert(false);
        }
        assert(la == lb);
        let da = a.drop_last();
        let db = b.drop_last();
        assert forall|x: Utxo| da.contains(x) <==> db.contains(x) by {
            if da.contains(x) {
                let i = choose|i: int| 0 <= i < da.len() && da[i] == x;
                assert(a[i] == x);
                assert(a.contains(x));
                assert(b.contains(x));
                let m = choose|m: int| 0 <= m < b.len() && b[m] == x;
                if m == b.len() - 1 {
                    assert(a[i].outpoint.key() < la.outpoint.key());
                }
                assert(db[m] == x);
            }
            if db.contains(x) {
                let i = choose|i: int| 0 <= i < db.len() && db[i] == x;
                assert(b[i] == x);
                assert(b.contains(x));
                assert(a.contains(x));
                let m = choose|m: int| 0 <= m < a.len() && a[m] == x;
                if m == a.len() - 1 {
                    assert(b[i].outpoint.key() < lb.outpoint.key());
                }
                assert(da[m] == x);
            }
        }
        assert forall|i: int, j: int| 0 <= i < j < da.len() implies (#[trigger] da[i]).outpoint.key()
            < (#[trigger] da[j]).outpoint.key() by {
            assert(a[i].outpoint.key() < a[j].outpoint.key());
        }
        assert forall|i: int, j: int| 0 <= i < j < db.len() implies (#[trigger] db[i]).outpoint.key()
            < (#[trigger] db[j]).outpoint.key() by {
            assert(b[i].outpoint.key() < b[j].outpoint.key());
        }
        lemma_ordered_unique(da, db);
        assert(a =~= da.push(la));
        assert(b =~= db.push(lb));
    }
}

/// Outputs at pairwise different outpoints.
pub open spec fn distinct_outpoints(s: Seq<Utxo>) -> bool {
    forall|i: int, j: int|
        0 <= i < j < s.len() ==> (#[trigger] s[i]).outpoint != (#[trigger] s[j]).outpoint
}

/// Whether no output of `a` sits at an outpoint of `b`.
pub open spec fn disjoint_outpoints(a: Seq<Utxo>, b: Seq<Utxo>) -> bool {
    forall|i: int| 0 <= i < a.len() ==> !holds_outpoint(b, (#[trigger] a[i]).outpoint)
}

} // verus!
