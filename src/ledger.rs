//! The share ledger: how many pool shares each provider owns. Providers with no
//! shares have no entry, and the entries add up to the shares outstanding.
use vstd::prelude::*;

verus! {

/// One provider's holding.
pub struct ShareEntry {
    pub account_id: String,
    pub shares: u128,
}

/// The shares of each provider, one entry per provider.
pub struct ShareLedger {
    entries: Vec<ShareEntry>,
}

/// Shares held by `a` in a list of entries (the last entry for `a` counts).
pub open spec fn balance_in(s: Seq<ShareEntry>, a: Seq<char>) -> nat
    decreases s.len(),
{
    if s.len() == 0 {
        0
    } else if s.last().account_id@ == a {
        s.last().shares as nat
    } else {
        balance_in(s.drop_last(), a)
    }
}

/// Sum of the shares of all entries.
pub open spec fn total_in(s: Seq<ShareEntry>) -> nat
    decreases s.len(),
{
    if s.len() == 0 {
        0
    } else {
        total_in(s.drop_last()) + s.last().shares as nat
    }
}

/// Entries name distinct providers and hold positive share counts.
pub open spec fn entries_wf(s: Seq<ShareEntry>) -> bool {
    &&& forall|i: int| 0 <= i < s.len() ==> #[trigger] s[i].shares > 0
    &&& forall|i: int, j: int|
        0 <= i < j < s.len() ==> #[trigger] s[i].account_id@ != #[trigger] s[j].account_id@
}

proof fn lemma_balance_at(s: Seq<ShareEntry>, a: Seq<char>, i: int)
    requires
        entries_wf(s),
        0 <= i < s.len(),
        s[i].account_id@ == a,
    ensures
        balance_in(s, a) == s[i].shares,
    decreases s.len(),
{
    if i != s.len() - 1 {
        assert(s[i].account_id@ != s[s.len() - 1].account_id@);
        lemma_balance_at(s.drop_last(), a, i);
    }
}

proof fn lemma_balance_absent(s: Seq<ShareEntry>, a: Seq<char>)
    requires
        forall|i: int| 0 <= i < s.len() ==> #[trigger] s[i].account_id@ != a,
    ensures
        balance_in(s, a) == 0,
    decreases s.len(),
{
    if s.len() > 0 {
        assert(s.last().account_id@ != a);
        lemma_balance_absent(s.drop_last(), a);
    }
}

proof fn lemma_balance_le_total(s: Seq<ShareEntry>, a: Seq<char>)
    ensures
        balance_in(s, a) <= total_in(s),
    decreases s.len(),
{
    if s.len() > 0 {
        lemma_balance_le_total(s.drop_last(), a);
    }
}

proof fn lemma_total_update(s: Seq<ShareEntry>, i: int, e: ShareEntry)
    requires
        0 <= i < s.len(),
    ensures
        total_in(s.update(i, e)) == total_in(s) - s[i].shares + e.shares,
    decreases s.len(),
{
    if i < s.len() - 1 {
        assert(s.update(i, e).drop_last() =~= s.drop_last().update(i, e));
        lemma_total_update(s.drop_last(), i, e);
    } else {
        assert(s.update(i, e).drop_last() =~= s.drop_last());
    }
}

proof fn lemma_total_remove(s: Seq<ShareEntry>, i: int)
    requires
        0 <= i < s.len(),
    ensures
        total_in(s.remove(i)) == total_in(s) - s[i].shares,
    decreases s.len(),
{
    if i < s.len() - 1 {
        assert(s.remove(i).drop_last() =~= s.drop_last().remove(i));
        lemma_total_remove(s.drop_last(), i);
    } else {
        assert(s.remove(i) =~= s.drop_last());
    }
}

proof fn lemma_total_push(s: Seq<ShareEntry>, e: ShareEntry)
    ensures
        total_in(s.push(e)) == total_in(s) + e.shares,
{
    assert(s.push(e).drop_last() =~= s);
}

impl ShareLedger {
    /// The entries, in the order in which providers first received shares.
    pub closed spec fn entries(&self) -> Seq<ShareEntry> {
        self.entries@
    }

    /// Shares owned by provider `a` (zero when it has no entry).
    pub open spec fn balance(&self, a: Seq<char>) -> nat {
        balance_in(self.entries(), a)
    }

    /// Sum of all providers' shares.
    pub open spec fn total(&self) -> nat {
        total_in(self.entries())
    }

    pub open spec fn wf(&self) -> bool {
        entries_wf(self.entries())
    }

    /// An empty ledger.
    pub fn new() -> (r: ShareLedger)
        ensures
            r.wf(),
            r.total() == 0,
            forall|a: Seq<char>| #[trigger] r.balance(a) == 0,
    {
        let r = ShareLedger { entries: Vec::new() };
        proof {
            assert forall|a: Seq<char>| #[trigger] r.balance(a) == 0 by {
                lemma_balance_absent(r.entries(), a);
            }
        }
        r
    }

    /// No provider owns more than all shares together.
    pub proof fn lemma_balance_le_total(&self, a: Seq<char>)
        ensures
            self.balance(a) <= self.total(),
    {
        lemma_balance_le_total(self.entries(), a);
    }

    /// Position of the entry of `account_id`, if it has one.
    fn find(&self, account_id: &String) -> (r: Option<usize>)
        ensures
            match r {
                Some(i) => i < self.entries().len() && self.entries()[i as int].account_id@
                    == account_id@,
                None => forall|i: int|
                    0 <= i < self.entries().len() ==> #[trigger] self.entries()[i].account_id@
                        != account_id@,
            },
    {
        let mut i: usize = 0;
        while i < self.entries.len()
            invariant
                i <= self.entries@.len(),
                forall|j: int| 0 <= j < i ==> #[trigger] self.entries@[j].account_id@ != account_id@,
            decreases self.entries@.len() - i,
        {
            if self.entries[i].account_id == *account_id {
                return Some(i);
            }
            i = i + 1;
        }
        None
    }

    /// Shares owned by `account_id`, zero when it has none.
    pub fn get(&self, account_id: &String) -> (r: u128)
        requires
            self.wf(),
        ensures
            r as nat == self.balance(account_id@),
    {
        match self.find(account_id) {
            Some(i) => {
                proof {
                    lemma_balance_at(self.entries(), account_id@, i as int);
                }
                self.entries[i].shares
            },
            None => {
                proof {
                    lemma_balance_absent(self.entries(), account_id@);
                }
                0
            },
        }
    }

    /// Takes `amount` shares from `account_id`, dropping its entry when none
    /// are left.
    pub fn debit(&mut self, account_id: &String, amount: u128)
        requires
            old(self).wf(),
            amount <= old(self).balance(account_id@),
        ensures
            final(self).wf(),
            final(self).total() == old(self).total() - amount,
            final(self).balance(account_id@) == old(self).balance(account_id@) - amount,
            forall|a: Seq<char>|
                a != account_id@ ==> #[trigger] final(self).balance(a) == old(self).balance(a),
    {
        let ghost s = self.entries@;
        match self.find(account_id) {
            Some(i) => {
                proof {
                    lemma_balance_at(s, account_id@, i as int);
                }
                let prev = self.entries[i].shares;
                if prev == amount {
                    self.entries.remove(i);
                    proof {
                        let t = self.entries@;
                        assert(t =~= s.remove(i as int));
                        lemma_total_remove(s, i as int);
                        assert(entries_wf(t)) by {
                            assert forall|x: int, y: int| 0 <= x < y < t.len() implies #[trigger] t[x].account_id@
                                != #[trigger] t[y].account_id@ by {
                                let x0 = if x < i { x } else { x + 1 };
                                let y0 = if y < i { y } else { y + 1 };
                                assert(t[x] == s[x0] && t[y] == s[y0]);
                            }
                            assert forall|x: int| 0 <= x < t.len() implies #[trigger] t[x].shares > 0 by {
                                let x0 = if x < i { x } else { x + 1 };
                                assert(t[x] == s[x0]);
                            }
                        }
                        assert forall|x: int| 0 <= x < t.len() implies #[trigger] t[x].account_id@
                            != account_id@ by {
                            let x0 = if x < i { x } else { x + 1 };
                            assert(t[x] == s[x0]);
                            assert(s[x0].account_id@ != s[i as int].account_id@);
                        }
                        lemma_balance_absent(t, account_id@);
                        assert forall|a: Seq<char>| a != account_id@ implies #[trigger] balance_in(t, a)
                            == balance_in(s, a) by {
                            if exists|x: int| 0 <= x < s.len() && #[trigger] s[x].account_id@ == a {
                                let x = choose|x: int| 0 <= x < s.len() && #[trigger] s[x].account_id@ == a;
                                let xt = if x < i { x } else { x - 1 };
                                assert(t[xt] == s[x]);
                                lemma_balance_at(s, a, x);
                                lemma_balance_at(t, a, xt);
                            } else {
                                assert forall|x: int| 0 <= x < t.len() implies #[trigger] t[x].account_id@
                                    != a by {
                                    let x0 = if x < i { x } else { x + 1 };
                                    assert(t[x] == s[x0]);
                                }
                                lemma_balance_absent(s, a);
                                lemma_balance_absent(t, a);
                            }
                        }
                    }
                } else {
                    let e = ShareEntry { account_id: account_id.clone(), shares: prev - amount };
                    self.entries.set(i, e);
                    proof {
                        self.lemma_after_set(s, i as int, account_id@);
                    }
                }
            },
            None => {
                proof {
                    lemma_balance_absent(s, account_id@);
                }
            },
        }
    }

    proof fn lemma_after_set(&self, s: Seq<ShareEntry>, i: int, a: Seq<char>)
        requires
            entries_wf(s),
            0 <= i < s.len(),
            s[i].account_id@ == a,
            self.entries() == s.update(i, self.entries()[i]),
            self.entries()[i].account_id@ == a,
            self.entries()[i].shares > 0,
        ensures
            self.wf(),
            self.total() == total_in(s) - s[i].shares + self.entries()[i].shares,
            self.balance(a) == self.entries()[i].shares,
            forall|b: Seq<char>| b != a ==> #[trigger] self.balance(b) == balance_in(s, b),
    {
        let t = self.entries();
        lemma_total_update(s, i, t[i]);
        assert(entries_wf(t)) by {
            assert forall|x: int, y: int| 0 <= x < y < t.len() implies #[trigger] t[x].account_id@
                != #[trigger] t[y].account_id@ by {
                assert(x != i ==> t[x] == s[x]);
                assert(y != i ==> t[y] == s[y]);
            }
            assert forall|x: int| 0 <= x < t.len() implies #[trigger] t[x].shares > 0 by {
                assert(x != i ==> t[x] == s[x]);
            }
        }
        lemma_balance_at(t, a, i);
        assert forall|b: Seq<char>| b != a implies #[trigger] balance_in(t, b) == balance_in(s, b) by {
            if exists|x: int| 0 <= x < s.len() && #[trigger] s[x].account_id@ == b {
                let x = choose|x: int| 0 <= x < s.len() && #[trigger] s[x].account_id@ == b;
                assert(x != i);
                assert(t[x] == s[x]);
                lemma_balance_at(s, b, x);
                lemma_balance_at(t, b, x);
            } else {
                assert forall|x: int| 0 <= x < t.len() implies #[trigger] t[x].account_id@ != b by {
                    assert(x != i ==> t[x] == s[x]);
                }
                lemma_balance_absent(s, b);
                lemma_balance_absent(t, b);
            }
        }
    }
}

/// Credits `amount` shares to `account_id`, creating its entry when it has
/// none; a zero credit to a provider without shares leaves the ledger as it is.
pub fn add_to_collection(c: &mut ShareLedger, account_id: &String, amount: u128)
    requires
        old(c).wf(),
        old(c).balance(account_id@) + amount <= u128::MAX,
    ensures
        final(c).wf(),
        final(c).total() == old(c).total() + amount,
        final(c).balance(account_id@) == old(c).balance(account_id@) + amount,
        forall|a: Seq<char>| a != account_id@ ==> #[trigger] final(c).balance(a) == old(c).balance(a),
{
    let ghost s = c.entries@;
    match c.find(account_id) {
        Some(i) => {
            proof {
                lemma_balance_at(s, account_id@, i as int);
            }
            let prev = c.entries[i].shares;
            let e = ShareEntry { account_id: account_id.clone(), shares: prev + amount };
            c.entries.set(i, e);
            proof {
                c.lemma_after_set(s, i as int, account_id@);
            }
        },
        None => {
            proof {
                lemma_balance_absent(s, account_id@);
            }
            if amount > 0 {
                let e = ShareEntry { account_id: account_id.clone(), shares: amount };
                c.entries.push(e);
                proof {
                    let t = c.entries@;
                    assert(t =~= s.push(t.last()));
                    lemma_total_push(s, t.last());
                    assert(t.drop_last() =~= s);
                    assert(entries_wf(t)) by {
                        assert forall|x: int, y: int| 0 <= x < y < t.len() implies #[trigger] t[x].account_id@
                            != #[trigger] t[y].account_id@ by {
                            assert(x < s.len() ==> t[x] == s[x]);
                            assert(y < s.len() ==> t[y] == s[y]);
                        }
                        assert forall|x: int| 0 <= x < t.len() implies #[trigger] t[x].shares > 0 by {
                            assert(x < s.len() ==> t[x] == s[x]);
                        }
                    }
                }
            }
        },
    }
}

} // verus!
