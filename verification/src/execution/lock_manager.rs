//! Locks on rows, shared or exclusive.
//!
//! Two transactions hold a lock on the same row only where both hold it
//! shared. A request that cannot be granted is queued; who waits too long
//! gives up, which is how a deadlock ends.

use vstd::prelude::*;
use std::collections::HashMap;
use crate::error::{DatabaseError, Fault};
use crate::execution::row_key::{code_row, row_code};
use crate::execution::transaction::TransactionId;
use crate::text::{decimal, join5, unsigned_to_text};

verus! {

/// How a row is locked.
#[derive(Debug, Clone, Copy, PartialEq, Eq, Structural)]
pub enum LockMode {
    Shared,
    Exclusive,
}

/// The row that a lock is on.
#[derive(Debug, Clone, Copy, PartialEq, Eq, Structural)]
pub struct LockKey {
    pub table_id: u64,
    pub row_id: u64,
}

impl LockKey {
    /// The key of a row.
    pub fn new(table_id: u64, row_id: u64) -> (r: Self)
        ensures
            r == (LockKey { table_id, row_id }),
    {
        LockKey { table_id, row_id }
    }

    /// The number of the row.
    pub open spec fn code(self) -> u128 {
        row_code(self.table_id, self.row_id)
    }
}

/// Who holds a lock on a row, and who waits for one, each in the order of
/// arrival.
#[derive(Debug)]
pub struct LockEntry {
    pub holders: Vec<(TransactionId, LockMode)>,
    pub waiters: Vec<(TransactionId, LockMode)>,
}

/// An entry as contracts speak of it.
#[verifier::ext_equal]
pub struct Entry {
    pub holders: Seq<(TransactionId, LockMode)>,
    pub waiters: Seq<(TransactionId, LockMode)>,
}

impl View for LockEntry {
    type V = Entry;

    open spec fn view(&self) -> Entry {
        Entry { holders: self.holders@, waiters: self.waiters@ }
    }
}

/// Whether a transaction is in a list.
pub open spec fn listed(s: Seq<(TransactionId, LockMode)>, tx: TransactionId) -> bool {
    exists|i: int| 0 <= i < s.len() && (#[trigger] s[i]).0 == tx
}

/// Whether everyone in a list is there to share.
pub open spec fn all_shared(s: Seq<(TransactionId, LockMode)>) -> bool {
    forall|i: int| 0 <= i < s.len() ==> (#[trigger] s[i]).1 == LockMode::Shared
}

/// Whether a request can be granted at once. Who holds a lock already may share
/// it again, and may have it exclusively where nobody else holds it. Another
/// may share where everyone shares and nobody waits for more, and may have the
/// lock exclusively where nobody holds it.
pub open spec fn grantable(e: Entry, tx: TransactionId, mode: LockMode) -> bool {
    if listed(e.holders, tx) {
        mode == LockMode::Exclusive ==> e.holders.len() == 1
    } else {
        match mode {
            LockMode::Shared => all_shared(e.holders) && all_shared(e.waiters),
            LockMode::Exclusive => e.holders.len() == 0,
        }
    }
}

/// A list without a transaction.
pub open spec fn without(s: Seq<(TransactionId, LockMode)>, tx: TransactionId) -> Seq<
    (TransactionId, LockMode),
>
    decreases s.len(),
{
    if s.len() == 0 {
        s
    } else if s.last().0 == tx {
        without(s.drop_last(), tx)
    } else {
        without(s.drop_last(), tx).push(s.last())
    }
}

/// A list in which the first mention of a transaction has the exclusive mode.
pub open spec fn upgraded(s: Seq<(TransactionId, LockMode)>, tx: TransactionId, i: int) -> Seq<
    (TransactionId, LockMode),
>
    decreases s.len() - i,
{
    if 0 <= i < s.len() {
        if s[i].0 == tx {
            s.update(i, (tx, LockMode::Exclusive))
        } else {
            upgraded(s, tx, i + 1)
        }
    } else {
        s
    }
}

/// An entry after a request was granted.
pub open spec fn granted(e: Entry, tx: TransactionId, mode: LockMode) -> Entry {
    Entry {
        holders: if listed(e.holders, tx) {
            if mode == LockMode::Exclusive { upgraded(e.holders, tx, 0) } else { e.holders }
        } else {
            e.holders.push((tx, mode))
        },
        waiters: without(e.waiters, tx),
    }
}

/// An entry after a request was queued.
pub open spec fn queued(e: Entry, tx: TransactionId, mode: LockMode) -> Entry {
    if listed(e.waiters, tx) { e } else { Entry { waiters: e.waiters.push((tx, mode)), ..e } }
}

/// No transaction holds a lock twice, and two hold it only where both share.
pub open spec fn compatible(holders: Seq<(TransactionId, LockMode)>) -> bool {
    forall|i: int, j: int|
        0 <= i < j < holders.len() ==> (#[trigger] holders[i]).0 != (#[trigger] holders[j]).0
            && holders[i].1 == LockMode::Shared && holders[j].1 == LockMode::Shared
}

proof fn lemma_without(s: Seq<(TransactionId, LockMode)>, tx: TransactionId)
    ensures
        !listed(without(s, tx), tx),
        forall|o: TransactionId|
            o != tx ==> #[trigger] listed(without(s, tx), o) == listed(s, o),
        without(s, tx).len() <= s.len(),
        listed(s, tx) ==> without(s, tx).len() < s.len(),
        !listed(s, tx) ==> without(s, tx) == s,
        compatible(s) ==> compatible(without(s, tx)),
        forall|i: int|
            0 <= i < without(s, tx).len() ==> s.contains(#[trigger] without(s, tx)[i]),
    decreases s.len(),
{
    if s.len() > 0 {
        let rest = s.drop_last();
        lemma_without(rest, tx);
        let w = without(s, tx);
        let wr = without(rest, tx);
        assert forall|i: int| 0 <= i < w.len() implies s.contains(#[trigger] w[i]) by {
            if i < wr.len() {
                assert(w[i] == wr[i]);
                let k = choose|k: int| 0 <= k < rest.len() && rest[k] == wr[i];
                assert(s[k] == w[i]);
            } else {
                assert(s[s.len() - 1] == w[i]);
            }
        }
        assert(listed(s, tx) <==> listed(rest, tx) || s.last().0 == tx) by {
            if listed(rest, tx) {
                let k = choose|k: int| 0 <= k < rest.len() && (#[trigger] rest[k]).0 == tx;
                assert(s[k].0 == tx);
            }
            if listed(s, tx) {
                let k = choose|k: int| 0 <= k < s.len() && (#[trigger] s[k]).0 == tx;
                if k < rest.len() {
                    assert(rest[k].0 == tx);
                }
            }
            if s.last().0 == tx {
                assert(s[s.len() - 1].0 == tx);
            }
        }
        assert forall|o: TransactionId| o != tx implies #[trigger] listed(w, o) == listed(s, o) by {
            assert(listed(wr, o) == listed(rest, o));
            if listed(w, o) {
                let k = choose|k: int| 0 <= k < w.len() && (#[trigger] w[k]).0 == o;
                assert(s.contains(w[k]));
                let m = choose|m: int| 0 <= m < s.len() && s[m] == w[k];
                assert(s[m].0 == o);
            }
            if listed(s, o) {
                let k = choose|k: int| 0 <= k < s.len() && (#[trigger] s[k]).0 == o;
                if k < rest.len() {
                    assert(rest[k].0 == o);
                    let m = choose|m: int| 0 <= m < wr.len() && (#[trigger] wr[m]).0 == o;
                    assert(w[m].0 == o);
                } else {
                    assert(w[w.len() - 1].0 == o);
                }
            }
        }
        if listed(w, tx) {
            let k = choose|k: int| 0 <= k < w.len() && (#[trigger] w[k]).0 == tx;
            if k < wr.len() {
                assert(wr[k].0 == tx);
            }
        }
        if !listed(s, tx) {
            assert(w == s);
        }
        if compatible(s) {
            assert(compatible(rest)) by {
                assert forall|i: int, j: int| 0 <= i < j < rest.len() implies (#[trigger] rest[i]).0
                    != (#[trigger] rest[j]).0 && rest[i].1 == LockMode::Shared && rest[j].1
                    == LockMode::Shared by {
                    assert(s[i] == rest[i] && s[j] == rest[j]);
                }
            }
            assert forall|i: int, j: int| 0 <= i < j < w.len() implies (#[trigger] w[i]).0 != (
            #[trigger] w[j]).0 && w[i].1 == LockMode::Shared && w[j].1 == LockMode::Shared by {
                if j < wr.len() {
                    assert(w[i] == wr[i] && w[j] == wr[j]);
                } else {
                    assert(w[i] == wr[i]);
                    assert(rest.contains(wr[i]));
                    let k = choose|k: int| 0 <= k < rest.len() && rest[k] == wr[i];
                    assert(s[k] == w[i] && s[s.len() - 1] == w[j]);
                }
            }
        }
    }
}

proof fn lemma_upgraded(s: Seq<(TransactionId, LockMode)>, tx: TransactionId, i: int)
    requires
        0 <= i <= s.len(),
    ensures
        upgraded(s, tx, i).len() == s.len(),
        forall|k: int| 0 <= k < s.len() ==> (#[trigger] upgraded(s, tx, i)[k]).0 == s[k].0,
    decreases s.len() - i,
{
    if i < s.len() && s[i].0 != tx {
        lemma_upgraded(s, tx, i + 1);
    }
}

fn list_without(s: &Vec<(TransactionId, LockMode)>, tx: TransactionId) -> (r: Vec<
    (TransactionId, LockMode),
>)
    ensures
        r@ == without(s@, tx),
{
    let mut out: Vec<(TransactionId, LockMode)> = Vec::new();
    let mut i: usize = 0;
    assert(s@.take(0) == Seq::<(TransactionId, LockMode)>::empty());
    while i < s.len()
        invariant
            i <= s@.len(),
            out@ == without(s@.take(i as int), tx),
        decreases s@.len() - i,
    {
        assert(s@.take(i + 1).drop_last() == s@.take(i as int));
        if s[i].0 != tx {
            out.push(s[i]);
        }
        i = i + 1;
    }
    assert(s@.take(i as int) == s@);
    out
}

fn is_listed(s: &Vec<(TransactionId, LockMode)>, tx: TransactionId) -> (r: bool)
    ensures
        r == listed(s@, tx),
{
    let mut i: usize = 0;
    while i < s.len()
        invariant
            i <= s@.len(),
            forall|k: int| 0 <= k < i ==> (#[trigger] s@[k]).0 != tx,
        decreases s@.len() - i,
    {
        if s[i].0 == tx {
            return true;
        }
        i = i + 1;
    }
    false
}

fn only_shared(s: &Vec<(TransactionId, LockMode)>) -> (r: bool)
    ensures
        r == all_shared(s@),
{
    let mut i: usize = 0;
    while i < s.len()
        invariant
            i <= s@.len(),
            forall|k: int| 0 <= k < i ==> (#[trigger] s@[k]).1 == LockMode::Shared,
        decreases s@.len() - i,
    {
        if s[i].1 != LockMode::Shared {
            return false;
        }
        i = i + 1;
    }
    true
}

impl LockEntry {
    fn new() -> (r: Self)
        ensures
            r@ == no_entry(),
    {
        LockEntry { holders: Vec::new(), waiters: Vec::new() }
    }

    fn can_grant(&self, tx_id: TransactionId, mode: LockMode) -> (r: bool)
        ensures
            r == grantable(self@, tx_id, mode),
    {
        if is_listed(&self.holders, tx_id) {
            return match mode {
                LockMode::Shared => true,
                LockMode::Exclusive => self.holders.len() == 1,
            };
        }
        match mode {
            LockMode::Shared => only_shared(&self.holders) && only_shared(&self.waiters),
            LockMode::Exclusive => self.holders.len() == 0,
        }
    }

    /// Grants a request. Whether the transaction is new among the holders comes
    /// back.
    fn grant(&mut self, tx_id: TransactionId, mode: LockMode) -> (r: bool)
        ensures
            final(self)@ == granted(old(self)@, tx_id, mode),
            r == !listed(old(self)@.holders, tx_id),
    {
        let new_holder = !is_listed(&self.holders, tx_id);
        if new_holder {
            self.holders.push((tx_id, mode));
        } else if mode == LockMode::Exclusive {
            let ghost before = self.holders@;
            let mut i: usize = 0;
            while i < self.holders.len() && self.holders[i].0 != tx_id
                invariant
                    i <= self.holders@.len(),
                    self.holders@ == before,
                    self.waiters == old(self).waiters,
                    upgraded(before, tx_id, 0) == upgraded(before, tx_id, i as int),
                decreases self.holders@.len() - i,
            {
                i = i + 1;
            }
            if i < self.holders.len() {
                self.holders.set(i, (tx_id, LockMode::Exclusive));
            }
        }
        self.waiters = list_without(&self.waiters, tx_id);
        new_holder
    }

    fn queue(&mut self, tx_id: TransactionId, mode: LockMode)
        ensures
            final(self)@ == queued(old(self)@, tx_id, mode),
    {
        if !is_listed(&self.waiters, tx_id) {
            self.waiters.push((tx_id, mode));
        }
    }
}

/// The entry of a row that nobody holds or waits for.
pub open spec fn no_entry() -> Entry {
    Entry { holders: Seq::empty(), waiters: Seq::empty() }
}

/// All locks.
pub struct LockManager {
    /// The entry of each row, under the number of the row.
    pub entries: HashMap<u128, LockEntry>,
    /// The rows on which a transaction holds a lock.
    pub held_by: HashMap<u64, Vec<u128>>,
}

/// All locks as contracts speak of them.
#[verifier::ext_equal]
pub struct Locks {
    pub entries: Map<u128, Entry>,
    pub held: Map<u64, Seq<u128>>,
}

impl View for LockManager {
    type V = Locks;

    open spec fn view(&self) -> Locks {
        Locks {
            entries: self.entries@.map_values(|e: LockEntry| e@),
            held: self.held_by@.map_values(|k: Vec<u128>| k@),
        }
    }
}

/// The entry of a row.
pub open spec fn entry_of(l: Locks, code: u128) -> Entry {
    if l.entries.dom().contains(code) { l.entries[code] } else { no_entry() }
}

/// The rows that a transaction holds.
pub open spec fn held_by_tx(l: Locks, tx: u64) -> Seq<u128> {
    if l.held.dom().contains(tx) { l.held[tx] } else { Seq::empty() }
}

/// Whether a transaction holds a lock on a row.
pub open spec fn holds(l: Locks, tx: TransactionId, code: u128) -> bool {
    listed(entry_of(l, code).holders, tx)
}

/// The rows on which a lock is held.
pub open spec fn locked_rows(l: Locks) -> Set<u128> {
    l.entries.dom().filter(|c: u128| l.entries[c].holders.len() > 0)
}

/// All locks after a request: it is granted where it can be, else queued.
pub open spec fn requested(l: Locks, tx: TransactionId, code: u128, mode: LockMode) -> Locks {
    let e = entry_of(l, code);
    if grantable(e, tx, mode) {
        Locks {
            entries: l.entries.insert(code, granted(e, tx, mode)),
            held: if listed(e.holders, tx) {
                l.held
            } else {
                l.held.insert(tx.0, held_by_tx(l, tx.0).push(code))
            },
        }
    } else {
        Locks { entries: l.entries.insert(code, queued(e, tx, mode)), ..l }
    }
}

/// All locks after a transaction gave up waiting for a row.
pub open spec fn given_up(l: Locks, tx: TransactionId, code: u128) -> Locks {
    let e = entry_of(l, code);
    Locks {
        entries: l.entries.insert(code, Entry { waiters: without(e.waiters, tx), ..e }),
        ..l
    }
}

/// The entries after a transaction let go of the first `n` of some rows, and
/// whether that freed one.
pub open spec fn let_go(
    entries: Map<u128, Entry>,
    codes: Seq<u128>,
    n: int,
    tx: TransactionId,
) -> (Map<u128, Entry>, bool)
    decreases n,
{
    if n <= 0 {
        (entries, false)
    } else {
        let (before, freed) = let_go(entries, codes, n - 1, tx);
        let code = codes[n - 1];
        if before.dom().contains(code) {
            let e = before[code];
            let left = Entry { holders: without(e.holders, tx), ..e };
            (
                if left.holders.len() == 0 && left.waiters.len() == 0 {
                    before.remove(code)
                } else {
                    before.insert(code, left)
                },
                freed || listed(e.holders, tx),
            )
        } else {
            (before, freed)
        }
    }
}

/// All locks after a transaction released its own.
pub open spec fn released(l: Locks, tx: TransactionId) -> Locks {
    let codes = held_by_tx(l, tx.0);
    Locks {
        entries: let_go(l.entries, codes, codes.len() as int, tx).0,
        held: l.held.remove(tx.0),
    }
}

/// The holders of each row are compatible, and each transaction knows the rows
/// that it holds.
pub open spec fn sound_locks(l: Locks) -> bool {
    &&& forall|code: u128| #[trigger]
        l.entries.dom().contains(code) ==> compatible(l.entries[code].holders)
    &&& forall|code: u128, tx: TransactionId| #[trigger]
        holds(l, tx, code) ==> held_by_tx(l, tx.0).contains(code)
}

/// The text of the error that ends a wait.
pub open spec fn timeout_text(tx: TransactionId, key: LockKey) -> Seq<char> {
    "Deadlock timeout: tx TransactionId("@ + decimal(tx.0 as int)
        + ") aborted while waiting for lock on ("@ + decimal(key.table_id as int) + ", "@ + decimal(
        key.row_id as int,
    ) + ")"@
}

proof fn lemma_request(l: Locks, tx: TransactionId, code: u128, mode: LockMode)
    requires
        sound_locks(l),
    ensures
        sound_locks(requested(l, tx, code, mode)),
        grantable(entry_of(l, code), tx, mode) ==> holds(requested(l, tx, code, mode), tx, code),
{
    let after = requested(l, tx, code, mode);
    let e = entry_of(l, code);
    let f = after.entries[code];
    assert(compatible(e.holders));
    if grantable(e, tx, mode) {
        if listed(e.holders, tx) {
            lemma_upgraded(e.holders, tx, 0);
            let k = choose|k: int| 0 <= k < e.holders.len() && (#[trigger] e.holders[k]).0 == tx;
            assert(f.holders[k].0 == tx);
        } else {
            assert(f.holders[e.holders.len() as int].0 == tx);
            assert(after.held[tx.0][held_by_tx(l, tx.0).len() as int] == code);
        }
        assert(compatible(f.holders)) by {
            assert forall|i: int, j: int| 0 <= i < j < f.holders.len() implies (
            #[trigger] f.holders[i]).0 != (#[trigger] f.holders[j]).0 && f.holders[i].1
                == LockMode::Shared && f.holders[j].1 == LockMode::Shared by {
                if !listed(e.holders, tx) {
                    if j < e.holders.len() {
                        assert(f.holders[i] == e.holders[i] && f.holders[j] == e.holders[j]);
                    } else {
                        assert(f.holders[i] == e.holders[i]);
                    }
                }
            }
        }
    }
    assert forall|c: u128, o: TransactionId| #[trigger] holds(after, o, c) implies held_by_tx(
        after,
        o.0,
    ).contains(c) by {
        if c == code {
            let k = choose|k: int| 0 <= k < f.holders.len() && (#[trigger] f.holders[k]).0 == o;
            if grantable(e, tx, mode) && !listed(e.holders, tx) && k == e.holders.len() {
                assert(o == tx);
            } else {
                assert(e.holders[k].0 == o);
                assert(holds(l, o, c));
                lemma_push_keeps(held_by_tx(l, o.0), code, c);
            }
        } else {
            assert(holds(l, o, c));
            lemma_push_keeps(held_by_tx(l, o.0), code, c);
        }
    }
}

proof fn lemma_push_keeps(s: Seq<u128>, x: u128, y: u128)
    requires
        s.contains(y),
    ensures
        s.push(x).contains(y),
{
    let i = choose|i: int| 0 <= i < s.len() && s[i] == y;
    assert(s.push(x)[i] == y);
}

proof fn lemma_let_go(entries: Map<u128, Entry>, codes: Seq<u128>, n: int, tx: TransactionId)
    requires
        0 <= n <= codes.len(),
    ensures
        ({
            let after = let_go(entries, codes, n, tx).0;
            &&& forall|c: u128| #[trigger]
                after.dom().contains(c) ==> entries.dom().contains(c) && after[c].waiters
                    == entries[c].waiters && (after[c].holders == entries[c].holders
                    || after[c].holders == without(entries[c].holders, tx))
            &&& forall|c: u128| #[trigger]
                entries.dom().contains(c) && !after.dom().contains(c) ==> without(
                    entries[c].holders,
                    tx,
                ).len() == 0
            &&& forall|i: int|
                0 <= i < n && after.dom().contains(#[trigger] codes[i]) ==> !listed(
                    after[codes[i]].holders,
                    tx,
                )
        }),
    decreases n,
{
    if n > 0 {
        lemma_let_go(entries, codes, n - 1, tx);
        let before = let_go(entries, codes, n - 1, tx).0;
        let after = let_go(entries, codes, n, tx).0;
        let code = codes[n - 1];
        if before.dom().contains(code) {
            lemma_without(before[code].holders, tx);
            lemma_without(entries[code].holders, tx);
            lemma_without(without(entries[code].holders, tx), tx);
        }
    }
}

/// What a transaction releases is free of it, and nobody else loses a lock.
pub proof fn releasing_frees_every_lock(l: Locks, tx: TransactionId, other: TransactionId, code: u128)
    requires
        sound_locks(l),
        other != tx,
    ensures
        sound_locks(released(l, tx)),
        !holds(released(l, tx), tx, code),
        holds(released(l, tx), other, code) == holds(l, other, code),
{
    let codes = held_by_tx(l, tx.0);
    let after = released(l, tx);
    lemma_let_go(l.entries, codes, codes.len() as int, tx);
    assert forall|c: u128| #[trigger] after.entries.dom().contains(c) implies compatible(
        after.entries[c].holders,
    ) by {
        lemma_without(l.entries[c].holders, tx);
    }
    assert forall|c: u128| #[trigger] entry_of(after, c) == entry_of(after, c) implies !holds(
        after,
        tx,
        c,
    ) by {
        if after.entries.dom().contains(c) {
            lemma_without(l.entries[c].holders, tx);
            if listed(after.entries[c].holders, tx) {
                assert(holds(l, tx, c));
                let i = choose|i: int| 0 <= i < codes.len() && codes[i] == c;
                assert(!listed(after.entries[codes[i]].holders, tx));
            }
        }
    }
    assert forall|c: u128, o: TransactionId| o != tx implies #[trigger] holds(after, o, c) == holds(
        l,
        o,
        c,
    ) by {
        if l.entries.dom().contains(c) {
            lemma_without(l.entries[c].holders, tx);
            assert(listed(without(l.entries[c].holders, tx), o) == listed(l.entries[c].holders, o));
        }
    }
    assert(entry_of(after, code) == entry_of(after, code));
    assert forall|c: u128, o: TransactionId| #[trigger] holds(after, o, c) implies held_by_tx(
        after,
        o.0,
    ).contains(c) by {
        assert(entry_of(after, c) == entry_of(after, c));
        if o != tx {
            assert(holds(l, o, c));
            assert(o.0 != tx.0);
        }
    }
}

impl LockManager {
    pub open spec fn wf(&self) -> bool {
        sound_locks(self@)
    }

    /// A manager without locks.
    pub fn new() -> (r: Self)
        ensures
            r.wf(),
            r@ == (Locks { entries: Map::empty(), held: Map::empty() }),
    {
        broadcast use vstd::std_specs::hash::group_hash_axioms;

        let r = LockManager { entries: HashMap::new(), held_by: HashMap::new() };
        assert(r@ =~= (Locks { entries: Map::empty(), held: Map::empty() }));
        assert forall|code: u128, tx: TransactionId| #[trigger]
            holds(r@, tx, code) implies held_by_tx(r@, tx.0).contains(code) by {
            assert(entry_of(r@, code) == no_entry());
        }
        r
    }

    /// Asks for a lock. It is granted where it can be, and true comes back;
    /// else the request is queued.
    pub fn request(&mut self, tx_id: TransactionId, key: LockKey, mode: LockMode) -> (r: bool)
        requires
            old(self).wf(),
        ensures
            final(self).wf(),
            final(self)@ == requested(old(self)@, tx_id, key.code(), mode),
            r == grantable(entry_of(old(self)@, key.code()), tx_id, mode),
            r ==> holds(final(self)@, tx_id, key.code()),
    {
        broadcast use vstd::std_specs::hash::group_hash_axioms;

        let code = code_row(key.table_id, key.row_id);
        let mut entry = match self.entries.remove(&code) {
            Some(e) => e,
            None => LockEntry::new(),
        };
        assert(entry@ == entry_of(old(self)@, code));
        let ok = entry.can_grant(tx_id, mode);
        if ok {
            if entry.grant(tx_id, mode) {
                let mut keys = match self.held_by.remove(&tx_id.0) {
                    Some(k) => k,
                    None => Vec::new(),
                };
                assert(keys@ == held_by_tx(old(self)@, tx_id.0));
                keys.push(code);
                self.held_by.insert(tx_id.0, keys);
            }
        } else {
            entry.queue(tx_id, mode);
        }
        self.entries.insert(code, entry);
        proof {
            assert(self@ =~= requested(old(self)@, tx_id, code, mode)) by {
                let want = requested(old(self)@, tx_id, code, mode);
                assert(self@.entries =~= want.entries);
                assert(self@.held =~= want.held);
            }
            lemma_request(old(self)@, tx_id, code, mode);
        }
        ok
    }

    /// Gives up waiting for a lock.
    pub fn give_up(&mut self, tx_id: TransactionId, key: LockKey) -> (r: DatabaseError)
        requires
            old(self).wf(),
        ensures
            final(self).wf(),
            final(self)@ == given_up(old(self)@, tx_id, key.code()),
            r@ == Fault::Transaction(timeout_text(tx_id, key)),
    {
        broadcast use vstd::std_specs::hash::group_hash_axioms;

        let code = code_row(key.table_id, key.row_id);
        let mut entry = match self.entries.remove(&code) {
            Some(e) => e,
            None => LockEntry::new(),
        };
        entry.waiters = list_without(&entry.waiters, tx_id);
        self.entries.insert(code, entry);
        proof {
            let want = given_up(old(self)@, tx_id, code);
            assert(self@ =~= want) by {
                assert(self@.entries =~= want.entries);
                assert(self@.held =~= want.held);
            }
            assert forall|c: u128, o: TransactionId| #[trigger] holds(want, o, c) implies held_by_tx(
                want,
                o.0,
            ).contains(c) by {
                assert(holds(old(self)@, o, c));
            }
        }
        let tx = unsigned_to_text(tx_id.0);
        let table = unsigned_to_text(key.table_id);
        let row = unsigned_to_text(key.row_id);
        let head = join5(
            "Deadlock timeout: tx TransactionId(",
            tx.as_str(),
            ") aborted while waiting for lock on (",
            table.as_str(),
            ", ",
        );
        let text = join5(head.as_str(), row.as_str(), ")", "", "");
        proof {
            reveal_strlit("");
            assert(text@ =~= timeout_text(tx_id, key));
        }
        DatabaseError::TransactionError(text)
    }

    /// Asks for a lock, and gives up where it cannot be granted at once.
    fn acquire(&mut self, tx_id: TransactionId, key: LockKey, mode: LockMode) -> (r: Result<
        (),
        DatabaseError,
    >)
        requires
            old(self).wf(),
        ensures
            final(self).wf(),
            acquired(old(self)@, final(self)@, r, tx_id, key, mode),
    {
        if self.request(tx_id, key, mode) {
            Ok(())
        } else {
            Err(self.give_up(tx_id, key))
        }
    }

    /// Acquires a shared lock.
    pub fn acquire_shared(&mut self, tx_id: TransactionId, key: LockKey) -> (r: Result<
        (),
        DatabaseError,
    >)
        requires
            old(self).wf(),
        ensures
            final(self).wf(),
            acquired(old(self)@, final(self)@, r, tx_id, key, LockMode::Shared),
    {
        self.acquire(tx_id, key, LockMode::Shared)
    }

    /// Acquires an exclusive lock.
    pub fn acquire_exclusive(&mut self, tx_id: TransactionId, key: LockKey) -> (r: Result<
        (),
        DatabaseError,
    >)
        requires
            old(self).wf(),
        ensures
            final(self).wf(),
            acquired(old(self)@, final(self)@, r, tx_id, key, LockMode::Exclusive),
    {
        self.acquire(tx_id, key, LockMode::Exclusive)
    }

    /// Releases every lock of a transaction. Whether that freed a row, so that
    /// those who wait should ask again, comes back.
    pub fn release_all(&mut self, tx_id: TransactionId) -> (r: bool)
        requires
            old(self).wf(),
        ensures
            final(self).wf(),
            final(self)@ == released(old(self)@, tx_id),
            r == let_go(
                old(self)@.entries,
                held_by_tx(old(self)@, tx_id.0),
                held_by_tx(old(self)@, tx_id.0).len() as int,
                tx_id,
            ).1,
    {
        broadcast use vstd::std_specs::hash::group_hash_axioms;

        let ghost l = self@;
        let codes = match self.held_by.remove(&tx_id.0) {
            Some(k) => k,
            None => Vec::new(),
        };
        assert(codes@ == held_by_tx(l, tx_id.0));
        assert(self@.held =~= l.held.remove(tx_id.0));
        let mut woke = false;
        let mut i: usize = 0;
        while i < codes.len()
            invariant
                i <= codes@.len(),
                (self@.entries, woke) == let_go(l.entries, codes@, i as int, tx_id),
                self@.held == l.held.remove(tx_id.0),
            decreases codes@.len() - i,
        {
            let ghost before = self@.entries;
            match self.entries.remove(&codes[i]) {
                Some(entry) => {
                    let holders = list_without(&entry.holders, tx_id);
                    proof {
                        lemma_without(entry.holders@, tx_id);
                    }
                    if holders.len() < entry.holders.len() {
                        woke = true;
                    }
                    if holders.len() == 0 && entry.waiters.len() == 0 {
                        assert(self@.entries =~= before.remove(codes@[i as int]));
                    } else {
                        let left = LockEntry { holders, waiters: entry.waiters };
                        self.entries.insert(codes[i], left);
                        assert(self@.entries =~= before.insert(codes@[i as int], left@));
                    }
                },
                None => {
                    assert(self@.entries =~= before);
                },
            }
            i = i + 1;
        }
        proof {
            assert(self@ =~= released(l, tx_id));
            let other = TransactionId((tx_id.0 ^ 1) as u64);
            let n = tx_id.0;
            assert(n ^ 1 != n) by (bit_vector);
            releasing_frees_every_lock(l, tx_id, other, 0);
        }
        woke
    }

    /// The numbers of the rows that have an entry, in no particular order.
    fn codes(&self) -> (r: Vec<u128>)
        ensures
            r@.no_duplicates(),
            r@.to_set() == self@.entries.dom(),
    {
        broadcast use vstd::std_specs::hash::group_hash_axioms;

        assert(self@.entries.dom() =~= self.entries@.dom());
        let mut out: Vec<u128> = Vec::new();
        for code in it: self.entries.keys()
            invariant
                out@ == it.seq().unref().take(it.index()),
                it.index() == it.seq().len() ==> out@ == it.seq().unref(),
                it.seq().unref().no_duplicates(),
                it.seq().unref().to_set() == self@.entries.dom(),
        {
            let ghost all = it.seq().unref();
            let ghost i = it.index();
            out.push(*code);
            assert(all.take(i + 1) =~= all.take(i).push(all[i]));
        }
        out
    }

    /// The number of rows on which a lock is held.
    pub fn lock_count(&self) -> (r: usize)
        ensures
            r == locked_rows(self@).len(),
    {
        broadcast use vstd::std_specs::hash::group_hash_axioms;

        let codes = self.codes();
        let ghost mut got: Set<u128> = Set::empty();
        let mut n: usize = 0;
        let mut i: usize = 0;
        while i < codes.len()
            invariant
                i <= codes@.len(),
                codes@.no_duplicates(),
                codes@.to_set() == self@.entries.dom(),
                got.finite(),
                n == got.len() <= i,
                forall|c: u128| #[trigger] got.contains(c) ==> locked_rows(self@).contains(c),
                forall|c: u128| #[trigger]
                    got.contains(c) ==> exists|k: int| 0 <= k < i && codes@[k] == c,
                forall|k: int|
                    0 <= k < i && locked_rows(self@).contains(codes@[k]) ==> got.contains(
                        #[trigger] codes@[k],
                    ),
            decreases codes@.len() - i,
        {
            let code = codes[i];
            assert(codes@.to_set().contains(code));
            let entry = self.entries.get(&code).unwrap();
            assert(self@.entries[code] == entry@);
            assert(!got.contains(code));
            if entry.holders.len() > 0 {
                n = n + 1;
                proof {
                    got = got.insert(code);
                }
            }
            i = i + 1;
        }
        proof {
            assert forall|c: u128| #[trigger] locked_rows(self@).contains(c) implies got.contains(
                c,
            ) by {
                assert(codes@.to_set().contains(c));
            }
            assert(got =~= locked_rows(self@));
        }
        n
    }
}

impl Default for LockManager {
    fn default() -> (r: Self)
        ensures
            r.wf(),
            r@ == (Locks { entries: Map::empty(), held: Map::empty() }),
    {
        LockManager::new()
    }
}

/// What asking for a lock without waiting leaves.
pub open spec fn acquired(
    before: Locks,
    after: Locks,
    r: Result<(), DatabaseError>,
    tx: TransactionId,
    key: LockKey,
    mode: LockMode,
) -> bool {
    let asked = requested(before, tx, key.code(), mode);
    if grantable(entry_of(before, key.code()), tx, mode) {
        r is Ok && after == asked && holds(after, tx, key.code())
    } else {
        &&& r matches Err(e) && e@ == Fault::Transaction(timeout_text(tx, key))
        &&& after == given_up(asked, tx, key.code())
    }
}

/// While a transaction holds a lock exclusively, nobody else holds it.
pub proof fn exclusive_means_alone(l: Locks, code: u128, i: int, j: int)
    requires
        sound_locks(l),
        l.entries.dom().contains(code),
        0 <= i < l.entries[code].holders.len(),
        0 <= j < l.entries[code].holders.len(),
        l.entries[code].holders[i].1 == LockMode::Exclusive,
    ensures
        i == j,
{
    let h = l.entries[code].holders;
    assert(compatible(h));
    if i < j {
        assert(h[i].0 != h[j].0);
    }
    if j < i {
        assert(h[j].0 != h[i].0);
    }
}

} // verus!
