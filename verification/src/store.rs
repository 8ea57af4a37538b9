//! The record store: creation, toggling and deletion of owned task records.
//!
//! A `Store` keeps the active records, each at its derived address, together
//! with the funding accounts that back the storage deposits. Every mutating
//! operation is authorized against the record's stored owner, and deletion
//! refunds the creation deposit in full.

use vstd::prelude::*;

use crate::deriver::derived_address;
use crate::MAX_CONTENT_BYTES;

verus! {

/// One task record: the identity that created it, its content bytes, and
/// the toggleable flag.
pub struct TaskAccount {
    /// The creator's identity; set once at creation and never changed.
    pub authority: [u8; 32],
    /// The record's content; immutable after creation.
    pub content: Vec<u8>,
    /// The flag that the toggle operation flips.
    pub marked: bool,
}

/// Why an operation was rejected. Every failure is detected before any
/// mutation, so a rejected operation leaves the store exactly as it was.
#[derive(Clone, Copy, Debug, PartialEq, Eq, Structural)]
pub enum Error {
    /// The caller's identity does not match the record's stored owner.
    Unauthorized,
    /// No active record lives at the targeted address.
    RecordNotFound,
    /// A record already occupies the derived address.
    DuplicateRecord,
    /// The content exceeds the fixed maximum byte length.
    ContentTooLarge,
    /// The caller's funding account cannot cover the storage deposit.
    InsufficientFunds,
}

/// An active record together with the address it occupies.
struct Slot {
    addr: [u8; 32],
    task: TaskAccount,
}

/// A funding account: an identity and the balance it can spend on deposits.
struct FundingAccount {
    id: [u8; 32],
    lamports: u64,
}

/// The record store.
pub struct Store {
    program_id: [u8; 32],
    deposit: u64,
    slots: Vec<Slot>,
    accounts: Vec<FundingAccount>,
}

/// How many of the given slots are owned by `id`.
spec fn count_owned(slots: Seq<Slot>, id: Seq<u8>) -> nat
    decreases slots.len(),
{
    if slots.len() == 0 {
        0
    } else {
        count_owned(slots.drop_last(), id) + if slots.last().task.authority@ == id {
            1nat
        } else {
            0nat
        }
    }
}

impl Store {
    /// The program id under which all addresses are derived.
    pub closed spec fn program_id(self) -> Seq<u8> {
        self.program_id@
    }

    /// The deposit that backs one record's storage reservation.
    pub closed spec fn deposit(self) -> u64 {
        self.deposit
    }

    /// Whether an active record occupies `addr`.
    pub closed spec fn has_task(self, addr: Seq<u8>) -> bool {
        exists|i: int| 0 <= i < self.slots@.len() && self.slots@[i].addr@ == addr
    }

    /// The record at `addr`; meaningful only when `has_task(addr)`.
    pub closed spec fn task_at(self, addr: Seq<u8>) -> TaskAccount {
        self.slots@[choose|i: int|
            0 <= i < self.slots@.len() && self.slots@[i].addr@ == addr].task
    }

    /// Whether a funding account exists for `id`.
    pub closed spec fn has_account(self, id: Seq<u8>) -> bool {
        exists|i: int| 0 <= i < self.accounts@.len() && self.accounts@[i].id@ == id
    }

    /// The balance of the funding account of `id`, or zero if none exists.
    pub closed spec fn balance_of(self, id: Seq<u8>) -> u64 {
        if self.has_account(id) {
            self.accounts@[choose|i: int|
                0 <= i < self.accounts@.len() && self.accounts@[i].id@ == id].lamports
        } else {
            0
        }
    }

    /// Internal well-formedness: addresses and account ids are unique,
    /// contents are bounded, every record sits at the address derived from
    /// its owner and content, every owner has a funding account, and every
    /// account can absorb the refunds of all records its identity owns.
    pub closed spec fn wf(self) -> bool {
        &&& (forall|i: int, j: int|
            0 <= i < j < self.slots@.len() ==> self.slots@[i].addr@ != self.slots@[j].addr@)
        &&& (forall|i: int, j: int|
            0 <= i < j < self.accounts@.len() ==> self.accounts@[i].id@ != self.accounts@[j].id@)
        &&& (forall|i: int|
            0 <= i < self.slots@.len() ==> (#[trigger] self.slots@[i]).task.content@.len()
                <= MAX_CONTENT_BYTES)
        &&& (forall|i: int|
            0 <= i < self.slots@.len() ==> ((#[trigger] derived_address(
                self.program_id@,
                self.slots@[i].task.authority@,
                self.slots@[i].task.content@,
            )) matches Some(p) && p.0 == self.slots@[i].addr@))
        &&& (forall|i: int|
            0 <= i < self.slots@.len() ==> self.has_account(
                (#[trigger] self.slots@[i]).task.authority@,
            ))
        &&& (forall|i: int|
            0 <= i < self.accounts@.len() ==> (#[trigger] self.accounts@[i]).lamports
                + self.deposit * count_owned(self.slots@, self.accounts@[i].id@) <= u64::MAX)
    }

    /// A fresh store with no records and no funding accounts, derived under
    /// `program_id`, charging `deposit` for each record's reservation.
    pub fn new(program_id: [u8; 32], deposit: u64) -> (s: Store)
        ensures
            s.wf(),
            s.program_id() == program_id@,
            s.deposit() == deposit,
            forall|a: Seq<u8>| !s.has_task(a),
            forall|id: Seq<u8>| !s.has_account(id) && s.balance_of(id) == 0,
    {
        Store { program_id, deposit, slots: Vec::new(), accounts: Vec::new() }
    }

    /// Open a funding account for `id` holding `lamports`. Returns `false`
    /// and changes nothing when an account for `id` already exists.
    pub fn open_account(&mut self, id: [u8; 32], lamports: u64) -> (r: bool)
        requires
            old(self).wf(),
        ensures
            final(self).wf(),
            final(self).program_id() == old(self).program_id(),
            final(self).deposit() == old(self).deposit(),
            r == !old(self).has_account(id@),
            !r ==> *final(self) == *old(self),
            r ==> final(self).has_account(id@) && final(self).balance_of(id@) == lamports,
            forall|x: Seq<u8>|
                x != id@ ==> final(self).has_account(x) == old(self).has_account(x)
                    && final(self).balance_of(x) == old(self).balance_of(x),
            tasks_preserved(*old(self), *final(self)),
    {
        match self.find_account(&id) {
            Some(_) => false,
            None => {
                let ghost pre = *self;
                self.accounts.push(FundingAccount { id, lamports });
                proof {
                    lemma_count_owned_zero(pre.slots@, id@);
                    assert forall|x: Seq<u8>| x != id@ implies self.has_account(x) == pre.has_account(
                        x,
                    ) && self.balance_of(x) == pre.balance_of(x) by {
                        lemma_accounts_push_preserves(pre, *self, id@, x);
                    }
                    assert(self.slots@ =~= pre.slots@);
                    lemma_balance_at(*self, id@, pre.accounts@.len() as int);
                    assert(self.wf()) by {
                        assert forall|i: int|
                            0 <= i < self.accounts@.len() implies (#[trigger] self.accounts@[i]).lamports
                            + self.deposit * count_owned(self.slots@, self.accounts@[i].id@)
                            <= u64::MAX by {
                            if i < pre.accounts@.len() {
                                assert(self.accounts@[i] == pre.accounts@[i]);
                            } else {
                                assert(self.accounts@[i].id@ == id@);
                                assert(count_owned(self.slots@, id@) == 0);
                            }
                        }
                    }
                    assert(tasks_preserved(pre, *self)) by {
                        lemma_same_slots_same_tasks(pre, *self);
                    }
                }
                true
            },
        }
    }

    /// Create a record for `caller` holding `content`, at the address
    /// derived from the two. The caller's identity is taken as already
    /// authenticated by the surrounding environment. On success the store
    /// holds the new unmarked record and the deposit has left the caller's
    /// funding account; on failure nothing has changed and the error names
    /// the precondition that failed. Callers that have not checked that the
    /// derivation succeeds use `try_add_task` instead.
    pub fn add_task(&mut self, caller: [u8; 32], content: Vec<u8>) -> (r: Result<[u8; 32], Error>)
        requires
            old(self).wf(),
            derived_address(old(self).program_id(), caller@, content@) is Some,
        ensures
            final(self).wf(),
            final(self).program_id() == old(self).program_id(),
            final(self).deposit() == old(self).deposit(),
            create_outcome(*old(self), *final(self), caller@, content@, r),
    {
        let ghost pre = *old(self);
        if content.len() > MAX_CONTENT_BYTES {
            return Err(Error::ContentTooLarge);
        }
        let d = crate::deriver::derive(&self.program_id, &caller, &content);
        let pair = match d {
            Some(q) => q,
            None => {
                proof {
                    assert(false);
                }
                return Err(Error::ContentTooLarge);
            },
        };
        let addr = pair.0;
        match self.find_slot(&addr) {
            Some(i) => {
                proof {
                    assert(pre.has_task(addr@));
                }
                return Err(Error::DuplicateRecord);
            },
            None => {},
        }
        let dep = self.deposit;
        match self.find_account(&caller) {
            Some(j) => {
                let bal = self.accounts[j].lamports;
                proof {
                    lemma_balance_at(pre, caller@, j as int);
                }
                if bal < dep {
                    return Err(Error::InsufficientFunds);
                }
                let idv = self.accounts[j].id;
                self.accounts[j] = FundingAccount { id: idv, lamports: bal - dep };
                proof {
                    lemma_accounts_update_preserves(pre, *self, j as int);
                }
            },
            None => {
                if dep > 0 {
                    return Err(Error::InsufficientFunds);
                }
                self.accounts.push(FundingAccount { id: caller, lamports: 0 });
                proof {
                    assert forall|p: int, q: int|
                        0 <= p < q < self.accounts@.len() implies self.accounts@[p].id@
                        != self.accounts@[q].id@ by {
                        if q == pre.accounts@.len() as int {
                            assert(self.accounts@[p] == pre.accounts@[p]);
                        } else {
                            assert(self.accounts@[p] == pre.accounts@[p]);
                            assert(self.accounts@[q] == pre.accounts@[q]);
                        }
                    }
                    assert forall|x: Seq<u8>|
                        #![trigger self.balance_of(x)]
                        #![trigger self.has_account(x)]
                        x != caller@ implies self.has_account(x) == pre.has_account(x)
                        && self.balance_of(x) == pre.balance_of(x) by {
                        lemma_accounts_push_preserves(pre, *self, caller@, x);
                    }
                    lemma_balance_at(*self, caller@, pre.accounts@.len() as int);
                }
            },
        }
        let ghost mid = *self;
        proof {
            assert(mid.slots@ == pre.slots@);
            lemma_same_slots_same_tasks(pre, mid);
            assert(mid.has_account(caller@));
            assert(mid.balance_of(caller@) + dep == pre.balance_of(caller@));
            assert(balances_preserved_except(pre, mid, caller@));
        }
        self.slots.push(
            Slot { addr, task: TaskAccount { authority: caller, content, marked: false } },
        );
        proof {
            let post = *self;
            assert(post.slots@.last().addr@ == addr@);
            lemma_tasks_push(mid, post, addr@);
            lemma_same_accounts_same_balances(mid, post);
            // Fund safety: the caller absorbed one more owned record and paid
            // one deposit for it; everyone else is untouched.
            assert forall|k: int|
                0 <= k < post.accounts@.len() implies (#[trigger] post.accounts@[k]).lamports
                + post.deposit * count_owned(post.slots@, post.accounts@[k].id@) <= u64::MAX by {
                let id = post.accounts@[k].id@;
                lemma_count_owned_push(mid.slots@, post.slots@.last(), id);
                if id == caller@ {
                    let c = count_owned(pre.slots@, caller@);
                    assert(dep * (c + 1) == dep * c + dep) by (nonlinear_arith);
                    if k < pre.accounts@.len() && pre.accounts@[k].id@ == caller@ {
                        assert(pre.accounts@[k].lamports + pre.deposit * c <= u64::MAX);
                        assert(post.accounts@[k].lamports + dep <= pre.accounts@[k].lamports + dep);
                    } else {
                        // the account was opened just now with a zero balance
                        // and a zero deposit
                        assert(post.accounts@[k].lamports == 0);
                        assert(dep == 0);
                        assert(dep * (c + 1) == 0) by (nonlinear_arith)
                            requires
                                dep == 0,
                        ;
                    }
                } else {
                    assert(mid.accounts@[k] == pre.accounts@[k]);
                    assert(pre.accounts@[k].lamports + pre.deposit * count_owned(pre.slots@, id)
                        <= u64::MAX);
                }
            }
            // Every record's owner still has a funding account.
            assert forall|k: int|
                0 <= k < post.slots@.len() implies post.has_account(
                (#[trigger] post.slots@[k]).task.authority@,
            ) by {
                if k < mid.slots@.len() {
                    assert(post.slots@[k] == mid.slots@[k]);
                    let x = mid.slots@[k].task.authority@;
                    assert(pre.has_account(x));
                    if x != caller@ {
                        assert(mid.has_account(x) == pre.has_account(x));
                    }
                } else {
                    assert(post.slots@[k].task.authority@ == caller@);
                }
            }
            // The record frame and the balance frame, composed across the
            // two mutations.
            assert(created(pre, post, caller@, content@)) by {
                assert forall|a: Seq<u8>|
                    #![trigger post.has_task(a)]
                    a != addr@ implies post.has_task(a) == pre.has_task(a) && (pre.has_task(a)
                    ==> post.task_at(a) == pre.task_at(a)) by {
                    assert(post.has_task(a) == mid.has_task(a));
                    assert(mid.has_task(a) == pre.has_task(a));
                    if pre.has_task(a) {
                        assert(mid.task_at(a) == pre.task_at(a));
                        assert(post.task_at(a) == mid.task_at(a));
                    }
                }
                assert(post.balance_of(caller@) == mid.balance_of(caller@));
                assert forall|x: Seq<u8>|
                    #![trigger post.balance_of(x)]
                    #![trigger post.has_account(x)]
                    x != caller@ implies post.has_account(x) == pre.has_account(x)
                    && post.balance_of(x) == pre.balance_of(x) by {
                    assert(post.has_account(x) == mid.has_account(x));
                    assert(post.balance_of(x) == mid.balance_of(x));
                    assert(mid.has_account(x) == pre.has_account(x));
                    assert(mid.balance_of(x) == pre.balance_of(x));
                }
            }
        }
        Ok(addr)
    }

    /// Create a record for `caller` holding `content`, deriving the address
    /// first. `None` reports — with the store untouched — that the
    /// derivation itself found no usable address; otherwise the creation
    /// attempt runs and its result is handed back.
    pub fn try_add_task(&mut self, caller: [u8; 32], content: Vec<u8>) -> (r: Option<
        Result<[u8; 32], Error>,
    >)
        requires
            old(self).wf(),
        ensures
            final(self).wf(),
            final(self).program_id() == old(self).program_id(),
            final(self).deposit() == old(self).deposit(),
            (match r {
                None => *final(self) == *old(self) && derived_address(
                    old(self).program_id(),
                    caller@,
                    content@,
                ) is None,
                Some(res) => create_outcome(*old(self), *final(self), caller@, content@, res),
            }),
    {
        match crate::deriver::derive(&self.program_id, &caller, &content) {
            None => None,
            Some(_) => Some(self.add_task(caller, content)),
        }
    }

    /// Flip the `marked` flag of the record at `addr`, provided `caller` is
    /// the identity that owns it. On any failure the store is exactly as it
    /// was; an authorization failure is a direct comparison of the caller
    /// against the stored owner.
    pub fn mark_task(&mut self, caller: [u8; 32], addr: [u8; 32]) -> (r: Result<(), Error>)
        requires
            old(self).wf(),
        ensures
            final(self).wf(),
            final(self).program_id() == old(self).program_id(),
            final(self).deposit() == old(self).deposit(),
            (match r {
                Ok(_) => old(self).has_task(addr@) && old(self).task_at(addr@).authority@
                    == caller@ && toggled(*old(self), *final(self), addr@),
                Err(e) => *final(self) == *old(self) && (match e {
                    Error::RecordNotFound => !old(self).has_task(addr@),
                    Error::Unauthorized => old(self).has_task(addr@) && old(self).task_at(
                        addr@,
                    ).authority@ != caller@,
                    _ => false,
                }),
            }),
    {
        let ghost pre = *old(self);
        let i = match self.find_slot(&addr) {
            Some(i) => i,
            None => {
                return Err(Error::RecordNotFound);
            },
        };
        proof {
            lemma_task_at(pre, addr@, i as int);
        }
        if !bytes32_eq(&self.slots[i].task.authority, &caller) {
            return Err(Error::Unauthorized);
        }
        let authority = self.slots[i].task.authority;
        let content = clone_bytes(&self.slots[i].task.content);
        let marked = self.slots[i].task.marked;
        let slot_addr = self.slots[i].addr;
        self.slots[i] = Slot { addr: slot_addr, task: TaskAccount { authority, content, marked: !marked } };
        proof {
            let post = *self;
            assert(post.slots@ == pre.slots@.update(i as int, post.slots@[i as int]));
            lemma_tasks_update(pre, post, i as int);
            lemma_same_accounts_same_balances(pre, post);
            assert(post.wf()) by {
                assert forall|k: int|
                    0 <= k < post.slots@.len() implies ((#[trigger] derived_address(
                    post.program_id@,
                    post.slots@[k].task.authority@,
                    post.slots@[k].task.content@,
                )) matches Some(p) && p.0 == post.slots@[k].addr@) by {
                    if k != i as int {
                        assert(post.slots@[k] == pre.slots@[k]);
                    } else {
                        assert(post.slots@[k].task.authority@ == pre.slots@[k].task.authority@);
                        assert(post.slots@[k].task.content@ == pre.slots@[k].task.content@);
                        assert(post.slots@[k].addr@ == pre.slots@[k].addr@);
                    }
                }
                assert forall|k: int|
                    0 <= k < post.slots@.len() implies post.has_account(
                    (#[trigger] post.slots@[k]).task.authority@,
                ) by {
                    let x = post.slots@[k].task.authority@;
                    if k != i as int {
                        assert(post.slots@[k] == pre.slots@[k]);
                    }
                    assert(pre.has_account(x));
                    assert(post.has_account(x) == pre.has_account(x));
                }
                assert forall|k: int|
                    0 <= k < post.accounts@.len() implies (#[trigger] post.accounts@[k]).lamports
                    + post.deposit * count_owned(post.slots@, post.accounts@[k].id@)
                    <= u64::MAX by {
                    lemma_count_owned_update(
                        pre.slots@,
                        i as int,
                        post.slots@[i as int],
                        post.accounts@[k].id@,
                    );
                }
            }
        }
        Ok(())
    }

    /// Delete the record at `addr`, provided `caller` is the identity that
    /// owns it, and refund the full storage deposit to the owner's funding
    /// account. On any failure the store is exactly as it was.
    pub fn remove_task(&mut self, caller: [u8; 32], addr: [u8; 32]) -> (r: Result<(), Error>)
        requires
            old(self).wf(),
        ensures
            final(self).wf(),
            final(self).program_id() == old(self).program_id(),
            final(self).deposit() == old(self).deposit(),
            (match r {
                Ok(_) => old(self).has_task(addr@) && old(self).task_at(addr@).authority@
                    == caller@ && deleted(*old(self), *final(self), caller@, addr@),
                Err(e) => *final(self) == *old(self) && (match e {
                    Error::RecordNotFound => !old(self).has_task(addr@),
                    Error::Unauthorized => old(self).has_task(addr@) && old(self).task_at(
                        addr@,
                    ).authority@ != caller@,
                    _ => false,
                }),
            }),
    {
        let ghost pre = *old(self);
        let i = match self.find_slot(&addr) {
            Some(i) => i,
            None => {
                return Err(Error::RecordNotFound);
            },
        };
        proof {
            lemma_task_at(pre, addr@, i as int);
        }
        if !bytes32_eq(&self.slots[i].task.authority, &caller) {
            return Err(Error::Unauthorized);
        }
        let _removed = self.slots.remove(i);
        let ghost mid = *self;
        proof {
            lemma_tasks_remove(pre, mid, i as int);
            lemma_same_accounts_same_balances(pre, mid);
        }
        let j = match self.find_account(&caller) {
            Some(j) => j,
            None => {
                proof {
                    assert(pre.has_account(caller@));
                    assert(false);
                }
                return Err(Error::RecordNotFound);
            },
        };
        let dep = self.deposit;
        let bal = self.accounts[j].lamports;
        proof {
            lemma_balance_at(pre, caller@, j as int);
            // The refund cannot overflow: the account could already absorb
            // one deposit for each record it owns, and it owns at least one.
            lemma_count_owned_at_least(pre.slots@, i as int, caller@);
            let c = count_owned(pre.slots@, caller@);
            assert(dep * c >= dep) by (nonlinear_arith)
                requires
                    c >= 1,
                    dep >= 0,
            ;
            assert(bal + dep <= u64::MAX);
        }
        let idv = self.accounts[j].id;
        self.accounts[j] = FundingAccount { id: idv, lamports: bal + dep };
        proof {
            let post = *self;
            lemma_accounts_update_preserves(mid, post, j as int);
            lemma_same_slots_same_tasks(mid, post);
            assert(post.wf()) by {
                assert forall|k: int|
                    0 <= k < post.slots@.len() implies post.has_account(
                    (#[trigger] post.slots@[k]).task.authority@,
                ) by {
                    let x = post.slots@[k].task.authority@;
                    assert(mid.has_task(mid.slots@[k].addr@) && mid.task_at(mid.slots@[k].addr@)
                        == mid.slots@[k].task) by {
                        lemma_task_at(mid, mid.slots@[k].addr@, k);
                    }
                    assert(pre.has_account(x)) by {
                        let k2: int = if k < i as int {
                            k
                        } else {
                            k + 1
                        };
                        assert(post.slots@[k] == pre.slots@[k2]);
                    }
                    if x == caller@ {
                        assert(post.has_account(caller@));
                    } else {
                        assert(post.has_account(x) == mid.has_account(x));
                        assert(mid.has_account(x) == pre.has_account(x)) by {
                            lemma_same_accounts_same_balances(pre, mid);
                        }
                    }
                }
                assert forall|k: int|
                    0 <= k < post.accounts@.len() implies (#[trigger] post.accounts@[k]).lamports
                    + post.deposit * count_owned(post.slots@, post.accounts@[k].id@)
                    <= u64::MAX by {
                    let id = post.accounts@[k].id@;
                    lemma_count_owned_remove(pre.slots@, i as int, id);
                    if k == j as int {
                        let c = count_owned(pre.slots@, caller@);
                        assert(dep * c == dep * (c - 1) + dep) by (nonlinear_arith)
                            requires
                                c >= 1,
                        ;
                        assert(pre.accounts@[k].lamports + pre.deposit * c <= u64::MAX);
                    } else {
                        assert(post.accounts@[k] == mid.accounts@[k]);
                        assert(mid.accounts@[k] == pre.accounts@[k]);
                        assert(id != caller@);
                        assert(pre.accounts@[k].lamports + pre.deposit * count_owned(
                            pre.slots@,
                            id,
                        ) <= u64::MAX);
                    }
                }
            }
            assert(deleted(pre, post, caller@, addr@)) by {
                assert(post.balance_of(caller@) == bal + dep);
                assert forall|a: Seq<u8>|
                    #![trigger post.has_task(a)]
                    a != addr@ implies post.has_task(a) == pre.has_task(a) && (pre.has_task(a)
                    ==> post.task_at(a) == pre.task_at(a)) by {
                    assert(post.has_task(a) == mid.has_task(a));
                    assert(mid.has_task(a) == pre.has_task(a));
                    if pre.has_task(a) {
                        assert(mid.task_at(a) == pre.task_at(a));
                        assert(post.task_at(a) == mid.task_at(a));
                    }
                }
                assert(!post.has_task(addr@)) by {
                    assert(!mid.has_task(addr@));
                    assert(post.has_task(addr@) == mid.has_task(addr@));
                }
                assert forall|x: Seq<u8>|
                    #![trigger post.balance_of(x)]
                    #![trigger post.has_account(x)]
                    x != caller@ implies post.has_account(x) == pre.has_account(x)
                    && post.balance_of(x) == pre.balance_of(x) by {
                    assert(post.has_account(x) == mid.has_account(x));
                    assert(post.balance_of(x) == mid.balance_of(x));
                    assert(mid.has_account(x) == pre.has_account(x));
                    assert(mid.balance_of(x) == pre.balance_of(x));
                }
            }
        }
        Ok(())
    }

    /// The record at `addr`, if one is active there.
    pub fn get_task(&self, addr: &[u8; 32]) -> (r: Option<&TaskAccount>)
        requires
            self.wf(),
        ensures
            (match r {
                Some(t) => self.has_task(addr@) && *t == self.task_at(addr@),
                None => !self.has_task(addr@),
            }),
    {
        match self.find_slot(addr) {
            Some(i) => {
                proof {
                    lemma_task_at(*self, addr@, i as int);
                }
                Some(&self.slots[i].task)
            },
            None => None,
        }
    }

    /// The balance of `id`'s funding account; zero if none exists.
    pub fn balance(&self, id: &[u8; 32]) -> (r: u64)
        requires
            self.wf(),
        ensures
            r == self.balance_of(id@),
    {
        match self.find_account(id) {
            Some(i) => {
                proof {
                    lemma_balance_at(*self, id@, i as int);
                }
                self.accounts[i].lamports
            },
            None => 0,
        }
    }

    /// Find the index of the slot at `addr`, if any.
    fn find_slot(&self, addr: &[u8; 32]) -> (r: Option<usize>)
        ensures
            (match r {
                Some(i) => i < self.slots@.len() && self.slots@[i as int].addr@ == addr@,
                None => forall|i: int|
                    0 <= i < self.slots@.len() ==> self.slots@[i].addr@ != addr@,
            }),
    {
        let mut i: usize = 0;
        while i < self.slots.len()
            invariant
                i <= self.slots@.len(),
                forall|k: int| 0 <= k < i ==> self.slots@[k].addr@ != addr@,
            decreases self.slots@.len() - i,
        {
            if bytes32_eq(&self.slots[i].addr, addr) {
                return Some(i);
            }
            i += 1;
        }
        None
    }

    /// Find the index of the funding account of `id`, if any.
    fn find_account(&self, id: &[u8; 32]) -> (r: Option<usize>)
        ensures
            (match r {
                Some(i) => i < self.accounts@.len() && self.accounts@[i as int].id@ == id@,
                None => forall|i: int|
                    0 <= i < self.accounts@.len() ==> self.accounts@[i].id@ != id@,
            }),
    {
        let mut i: usize = 0;
        while i < self.accounts.len()
            invariant
                i <= self.accounts@.len(),
                forall|k: int| 0 <= k < i ==> self.accounts@[k].id@ != id@,
            decreases self.accounts@.len() - i,
        {
            if bytes32_eq(&self.accounts[i].id, id) {
                return Some(i);
            }
            i += 1;
        }
        None
    }
}

/// Every funding account of `pre` and `post` agrees in existence and balance.
pub open spec fn balances_preserved(pre: Store, post: Store) -> bool {
    forall|x: Seq<u8>|
        #![trigger post.balance_of(x)]
        #![trigger post.has_account(x)]
        post.has_account(x) == pre.has_account(x) && post.balance_of(x) == pre.balance_of(x)
}

/// Every funding account other than `id`'s agrees between `pre` and `post`.
pub open spec fn balances_preserved_except(pre: Store, post: Store, id: Seq<u8>) -> bool {
    forall|x: Seq<u8>|
        #![trigger post.balance_of(x)]
        #![trigger post.has_account(x)]
        x != id ==> post.has_account(x) == pre.has_account(x) && post.balance_of(x)
            == pre.balance_of(x)
}

impl Store {
    /// The inputs on which a creation succeeds: the content fits, the
    /// derivation yields an unoccupied address, and the caller can cover the
    /// deposit.
    pub open spec fn can_create(self, caller: Seq<u8>, content: Seq<u8>) -> bool {
        &&& content.len() <= MAX_CONTENT_BYTES
        &&& (derived_address(self.program_id(), caller, content) matches Some(p)
            && !self.has_task(p.0))
        &&& self.balance_of(caller) >= self.deposit()
    }
}

/// The successful-creation relation: `post` is `pre` with one new record for
/// `caller` holding `content`, unmarked, at the derived address, and with
/// the deposit moved out of `caller`'s funding account.
pub open spec fn created(pre: Store, post: Store, caller: Seq<u8>, content: Seq<u8>) -> bool {
    &&& post.program_id() == pre.program_id()
    &&& post.deposit() == pre.deposit()
    &&& content.len() <= MAX_CONTENT_BYTES
    &&& (derived_address(pre.program_id(), caller, content) matches Some(p) && {
        &&& !pre.has_task(p.0)
        &&& post.has_task(p.0)
        &&& post.task_at(p.0).authority@ == caller
        &&& post.task_at(p.0).content@ == content
        &&& post.task_at(p.0).marked == false
        &&& forall|a: Seq<u8>|
            #![trigger post.has_task(a)]
            a != p.0 ==> post.has_task(a) == pre.has_task(a) && (pre.has_task(a)
                ==> post.task_at(a) == pre.task_at(a))
    })
    &&& pre.balance_of(caller) >= pre.deposit()
    &&& post.balance_of(caller) + pre.deposit() == pre.balance_of(caller)
    &&& balances_preserved_except(pre, post, caller)
}

/// The successful-toggle relation: the record at `addr` has its flag
/// flipped; everything else — its owner, its content, every other record,
/// every balance — is untouched.
pub open spec fn toggled(pre: Store, post: Store, addr: Seq<u8>) -> bool {
    &&& post.program_id() == pre.program_id()
    &&& post.deposit() == pre.deposit()
    &&& pre.has_task(addr)
    &&& post.has_task(addr)
    &&& post.task_at(addr).authority@ == pre.task_at(addr).authority@
    &&& post.task_at(addr).content@ == pre.task_at(addr).content@
    &&& post.task_at(addr).marked == !pre.task_at(addr).marked
    &&& forall|a: Seq<u8>|
        #![trigger post.has_task(a)]
        a != addr ==> post.has_task(a) == pre.has_task(a) && (pre.has_task(a) ==> post.task_at(a)
            == pre.task_at(a))
    &&& balances_preserved(pre, post)
}

/// The successful-deletion relation: the record at `addr`, owned by
/// `caller`, is gone, its full deposit is back in `caller`'s funding
/// account, and nothing else changed.
pub open spec fn deleted(pre: Store, post: Store, caller: Seq<u8>, addr: Seq<u8>) -> bool {
    &&& post.program_id() == pre.program_id()
    &&& post.deposit() == pre.deposit()
    &&& pre.has_task(addr)
    &&& pre.task_at(addr).authority@ == caller
    &&& !post.has_task(addr)
    &&& forall|a: Seq<u8>|
        #![trigger post.has_task(a)]
        a != addr ==> post.has_task(a) == pre.has_task(a) && (pre.has_task(a) ==> post.task_at(a)
            == pre.task_at(a))
    &&& post.balance_of(caller) == pre.balance_of(caller) + pre.deposit()
    &&& balances_preserved_except(pre, post, caller)
}

/// Everything a creation attempt guarantees: success exactly on the inputs
/// of `can_create`, the new record as `created` describes it on success,
/// and on failure an untouched store with the precise error — oversized
/// content, an occupied derived address, or a balance under the deposit,
/// checked in that order.
pub open spec fn create_outcome(
    pre: Store,
    post: Store,
    caller: Seq<u8>,
    content: Seq<u8>,
    r: Result<[u8; 32], Error>,
) -> bool {
    &&& (r is Ok <==> pre.can_create(caller, content))
    &&& (match r {
        Ok(addr) => created(pre, post, caller, content) && (derived_address(
            pre.program_id(),
            caller,
            content,
        ) matches Some(p) && addr@ == p.0),
        Err(e) => post == pre && (match e {
            Error::ContentTooLarge => content.len() > MAX_CONTENT_BYTES,
            Error::DuplicateRecord => content.len() <= MAX_CONTENT_BYTES && (derived_address(
                pre.program_id(),
                caller,
                content,
            ) matches Some(p) && pre.has_task(p.0)),
            Error::InsufficientFunds => content.len() <= MAX_CONTENT_BYTES && (derived_address(
                pre.program_id(),
                caller,
                content,
            ) matches Some(p) && !pre.has_task(p.0)) && pre.balance_of(caller) < pre.deposit(),
            _ => false,
        }),
    })
}

/// The records of `pre` and `post` agree at every address.
pub open spec fn tasks_preserved(pre: Store, post: Store) -> bool {
    forall|a: Seq<u8>|
        #![trigger post.has_task(a)]
        post.has_task(a) == pre.has_task(a) && (pre.has_task(a) ==> post.task_at(a)
            == pre.task_at(a))
}

/// Equal slot sequences give equal record lookups.
proof fn lemma_same_slots_same_tasks(pre: Store, post: Store)
    requires
        post.slots@ == pre.slots@,
    ensures
        tasks_preserved(pre, post),
{
    assert forall|a: Seq<u8>| #![trigger post.has_task(a)]
        post.has_task(a) == pre.has_task(a) && (pre.has_task(a) ==> post.task_at(a) == pre.task_at(
        a,
    )) by {
        if pre.has_task(a) {
            let i = choose|i: int| 0 <= i < pre.slots@.len() && pre.slots@[i].addr@ == a;
            assert(0 <= i < post.slots@.len() && post.slots@[i].addr@ == a);
        }
        if post.has_task(a) {
            let i = choose|i: int| 0 <= i < post.slots@.len() && post.slots@[i].addr@ == a;
            assert(0 <= i < pre.slots@.len() && pre.slots@[i].addr@ == a);
        }
    }
}

/// Pushing a funding account leaves every other identity's account alone.
proof fn lemma_accounts_push_preserves(pre: Store, post: Store, id: Seq<u8>, x: Seq<u8>)
    requires
        post.accounts@.len() == pre.accounts@.len() + 1,
        forall|i: int| 0 <= i < pre.accounts@.len() ==> post.accounts@[i] == pre.accounts@[i],
        forall|p: int, q: int|
            0 <= p < q < pre.accounts@.len() ==> pre.accounts@[p].id@ != pre.accounts@[q].id@,
        !pre.has_account(id),
        post.accounts@.last().id@ == id,
        x != id,
    ensures
        post.has_account(x) == pre.has_account(x),
        post.balance_of(x) == pre.balance_of(x),
{
    assert forall|p: int, q: int|
        0 <= p < q < post.accounts@.len() implies post.accounts@[p].id@
        != post.accounts@[q].id@ by {
        if q == pre.accounts@.len() as int {
            assert(post.accounts@[p] == pre.accounts@[p]);
            if pre.accounts@[p].id@ == id {
                assert(pre.has_account(id));
            }
        }
    }
    if post.has_account(x) {
        let i = choose|i: int| 0 <= i < post.accounts@.len() && post.accounts@[i].id@ == x;
        assert(i < pre.accounts@.len());
        assert(pre.accounts@[i].id@ == x);
        lemma_balance_at(pre, x, i);
        lemma_balance_at(post, x, i);
    } else {
        if pre.has_account(x) {
            let i = choose|i: int| 0 <= i < pre.accounts@.len() && pre.accounts@[i].id@ == x;
            assert(0 <= i < post.accounts@.len() && post.accounts@[i].id@ == x);
        }
    }
}

/// If an account with `id` stands at index `i` and ids are unique, the
/// balance of `id` is that account's balance.
proof fn lemma_balance_at(s: Store, id: Seq<u8>, i: int)
    requires
        forall|p: int, q: int|
            0 <= p < q < s.accounts@.len() ==> s.accounts@[p].id@ != s.accounts@[q].id@,
        0 <= i < s.accounts@.len(),
        s.accounts@[i].id@ == id,
    ensures
        s.has_account(id),
        s.balance_of(id) == s.accounts@[i].lamports,
{
    let j = choose|j: int| 0 <= j < s.accounts@.len() && s.accounts@[j].id@ == id;
    if j != i {
        if j < i {
            assert(s.accounts@[j].id@ != s.accounts@[i].id@);
        } else {
            assert(s.accounts@[i].id@ != s.accounts@[j].id@);
        }
    }
}

/// No slot owned by `id` means `id` owns nothing.
proof fn lemma_count_owned_zero(slots: Seq<Slot>, id: Seq<u8>)
    requires
        forall|i: int| 0 <= i < slots.len() ==> (#[trigger] slots[i]).task.authority@ != id,
    ensures
        count_owned(slots, id) == 0,
    decreases slots.len(),
{
    if slots.len() > 0 {
        lemma_count_owned_zero(slots.drop_last(), id);
    }
}

/// Law: a creation of the same owner–content pair, attempted again while
/// the first record is still active, fails as a duplicate and leaves the
/// store exactly as it was.
pub proof fn lemma_unique_while_active(
    pre: Store,
    mid: Store,
    post: Store,
    caller: Seq<u8>,
    content: Seq<u8>,
    r2: Result<[u8; 32], Error>,
)
    requires
        created(pre, mid, caller, content),
        create_outcome(mid, post, caller, content, r2),
    ensures
        r2 == Err::<[u8; 32], Error>(Error::DuplicateRecord),
        post == mid,
{
}

/// Law: deletion frees the pair — after a record is created and then
/// deleted by its owner, the very same creation is admissible again.
pub proof fn lemma_recreate_after_delete(
    s0: Store,
    s1: Store,
    s2: Store,
    caller: Seq<u8>,
    content: Seq<u8>,
    addr: Seq<u8>,
)
    requires
        created(s0, s1, caller, content),
        (derived_address(s0.program_id(), caller, content) matches Some(p) && p.0 == addr),
        deleted(s1, s2, caller, addr),
    ensures
        s2.can_create(caller, content),
{
}

/// Law: the deposit is conserved — a creation followed by a deletion by the
/// same owner leaves the owner's balance exactly where it began, and every
/// other identity's balance untouched throughout.
pub proof fn lemma_fund_conservation(
    s0: Store,
    s1: Store,
    s2: Store,
    caller: Seq<u8>,
    content: Seq<u8>,
    addr: Seq<u8>,
)
    requires
        created(s0, s1, caller, content),
        (derived_address(s0.program_id(), caller, content) matches Some(p) && p.0 == addr),
        deleted(s1, s2, caller, addr),
    ensures
        s2.balance_of(caller) == s0.balance_of(caller),
        balances_preserved_except(s0, s2, caller),
{
    assert forall|x: Seq<u8>|
        #![trigger s2.balance_of(x)]
        #![trigger s2.has_account(x)]
        x != caller implies s2.has_account(x) == s0.has_account(x) && s2.balance_of(x)
        == s0.balance_of(x) by {
        assert(s1.has_account(x) == s0.has_account(x) && s1.balance_of(x) == s0.balance_of(x));
        assert(s2.has_account(x) == s1.has_account(x) && s2.balance_of(x) == s1.balance_of(x));
    }
}

/// Law: a pair of toggles returns the flag to its original value and leaves
/// the record's owner and content as they were.
pub proof fn lemma_toggle_pair(s0: Store, s1: Store, s2: Store, addr: Seq<u8>)
    requires
        toggled(s0, s1, addr),
        toggled(s1, s2, addr),
    ensures
        s2.task_at(addr).marked == s0.task_at(addr).marked,
        s2.task_at(addr).authority@ == s0.task_at(addr).authority@,
        s2.task_at(addr).content@ == s0.task_at(addr).content@,
{
}

/// Whether each adjacent pair of states in `chain` is related by one toggle
/// of the record at `addr`.
pub open spec fn toggle_chain(chain: Seq<Store>, addr: Seq<u8>) -> bool {
    forall|i: int| 0 <= i < chain.len() - 1 ==> #[trigger] toggled(chain[i], chain[i + 1], addr)
}

/// Law: across any run of toggles the flag ends flipped exactly when the
/// number of toggles is odd.
pub proof fn lemma_toggle_parity(chain: Seq<Store>, addr: Seq<u8>)
    requires
        chain.len() >= 1,
        chain[0].has_task(addr),
        toggle_chain(chain, addr),
    ensures
        chain.last().task_at(addr).marked == (if (chain.len() - 1) % 2 == 0 {
            chain[0].task_at(addr).marked
        } else {
            !chain[0].task_at(addr).marked
        }),
    decreases chain.len(),
{
    if chain.len() > 1 {
        let front = chain.drop_last();
        assert(toggle_chain(front, addr)) by {
            assert forall|i: int| 0 <= i < front.len() - 1 implies #[trigger] toggled(
                front[i],
                front[i + 1],
                addr,
            ) by {
                assert(toggled(chain[i], chain[i + 1], addr));
            }
        }
        lemma_toggle_parity(front, addr);
        assert(toggled(chain[chain.len() - 2], chain[chain.len() - 2 + 1], addr));
        assert(chain[chain.len() - 2 + 1] == chain[chain.len() - 1]);
        assert(front.last() == chain[chain.len() - 2]);
    }
}

/// If a slot with `addr` stands at index `i` and addresses are unique, the
/// record at `addr` is that slot's record.
proof fn lemma_task_at(s: Store, addr: Seq<u8>, i: int)
    requires
        forall|p: int, q: int|
            0 <= p < q < s.slots@.len() ==> s.slots@[p].addr@ != s.slots@[q].addr@,
        0 <= i < s.slots@.len(),
        s.slots@[i].addr@ == addr,
    ensures
        s.has_task(addr),
        s.task_at(addr) == s.slots@[i].task,
{
    assert(s.has_task(addr));
    let j = choose|j: int| 0 <= j < s.slots@.len() && s.slots@[j].addr@ == addr;
    if j != i {
        if j < i {
            assert(s.slots@[j].addr@ != s.slots@[i].addr@);
        } else {
            assert(s.slots@[i].addr@ != s.slots@[j].addr@);
        }
    }
}

/// Equal account sequences give equal balances everywhere.
proof fn lemma_same_accounts_same_balances(pre: Store, post: Store)
    requires
        post.accounts@ == pre.accounts@,
    ensures
        balances_preserved(pre, post),
{
    assert forall|x: Seq<u8>|
        #![trigger post.balance_of(x)]
        #![trigger post.has_account(x)]
        post.has_account(x) == pre.has_account(x) && post.balance_of(x) == pre.balance_of(
        x,
    ) by {
        if pre.has_account(x) {
            let i = choose|i: int| 0 <= i < pre.accounts@.len() && pre.accounts@[i].id@ == x;
            assert(0 <= i < post.accounts@.len() && post.accounts@[i].id@ == x);
        }
        if post.has_account(x) {
            let i = choose|i: int| 0 <= i < post.accounts@.len() && post.accounts@[i].id@ == x;
            assert(0 <= i < pre.accounts@.len() && pre.accounts@[i].id@ == x);
        }
    }
}

/// Updating one funding account in place keeps every other identity's
/// account, and gives the updated identity the new balance.
proof fn lemma_accounts_update_preserves(pre: Store, post: Store, i: int)
    requires
        0 <= i < pre.accounts@.len(),
        post.accounts@ == pre.accounts@.update(i, post.accounts@[i]),
        post.accounts@[i].id@ == pre.accounts@[i].id@,
        forall|p: int, q: int|
            0 <= p < q < pre.accounts@.len() ==> pre.accounts@[p].id@ != pre.accounts@[q].id@,
    ensures
        forall|p: int, q: int|
            0 <= p < q < post.accounts@.len() ==> post.accounts@[p].id@ != post.accounts@[q].id@,
        post.has_account(pre.accounts@[i].id@),
        post.balance_of(pre.accounts@[i].id@) == post.accounts@[i].lamports,
        balances_preserved_except(pre, post, pre.accounts@[i].id@),
{
    let id = pre.accounts@[i].id@;
    lemma_balance_at(post, id, i);
    assert forall|x: Seq<u8>|
        #![trigger post.balance_of(x)]
        #![trigger post.has_account(x)]
        x != id implies post.has_account(x) == pre.has_account(x) && post.balance_of(x)
        == pre.balance_of(x) by {
        if pre.has_account(x) {
            let j = choose|j: int| 0 <= j < pre.accounts@.len() && pre.accounts@[j].id@ == x;
            assert(j != i);
            assert(post.accounts@[j] == pre.accounts@[j]);
            lemma_balance_at(pre, x, j);
            lemma_balance_at(post, x, j);
        } else {
            if post.has_account(x) {
                let j = choose|j: int| 0 <= j < post.accounts@.len() && post.accounts@[j].id@ == x;
                assert(j != i);
                assert(post.accounts@[j] == pre.accounts@[j]);
            }
        }
    }
}

/// Appending a slot adds one owned record for the new slot's owner and none
/// for anyone else.
proof fn lemma_count_owned_push(slots: Seq<Slot>, x: Slot, id: Seq<u8>)
    ensures
        count_owned(slots.push(x), id) == count_owned(slots, id) + if x.task.authority@ == id {
            1nat
        } else {
            0nat
        },
{
    assert(slots.push(x).drop_last() =~= slots);
    assert(slots.push(x).last() == x);
}

/// Replacing a slot by one with the same owner changes nobody's count.
proof fn lemma_count_owned_update(slots: Seq<Slot>, i: int, x: Slot, id: Seq<u8>)
    requires
        0 <= i < slots.len(),
        x.task.authority@ == slots[i].task.authority@,
    ensures
        count_owned(slots.update(i, x), id) == count_owned(slots, id),
    decreases slots.len(),
{
    let s2 = slots.update(i, x);
    if i == slots.len() - 1 {
        assert(s2.drop_last() =~= slots.drop_last());
        assert(s2.last() == x);
    } else {
        assert(s2.drop_last() =~= slots.drop_last().update(i, x));
        assert(slots.drop_last()[i] == slots[i]);
        lemma_count_owned_update(slots.drop_last(), i, x, id);
        assert(s2.last() == slots.last());
    }
}

/// Removing a slot takes exactly one owned record from its owner's count
/// and none from anyone else's.
proof fn lemma_count_owned_remove(slots: Seq<Slot>, i: int, id: Seq<u8>)
    requires
        0 <= i < slots.len(),
    ensures
        count_owned(slots, id) == count_owned(slots.remove(i), id) + if slots[i].task.authority@
            == id {
            1nat
        } else {
            0nat
        },
    decreases slots.len(),
{
    let s2 = slots.remove(i);
    if i == slots.len() - 1 {
        assert(s2 =~= slots.drop_last());
    } else {
        assert(s2.drop_last() =~= slots.drop_last().remove(i));
        assert(slots.drop_last()[i] == slots[i]);
        lemma_count_owned_remove(slots.drop_last(), i, id);
        assert(s2.last() == slots.last());
    }
}

/// An identity that owns the slot at index `i` owns at least one record.
proof fn lemma_count_owned_at_least(slots: Seq<Slot>, i: int, id: Seq<u8>)
    requires
        0 <= i < slots.len(),
        slots[i].task.authority@ == id,
    ensures
        count_owned(slots, id) >= 1,
    decreases slots.len(),
{
    if i < slots.len() - 1 {
        assert(slots.drop_last()[i] == slots[i]);
        lemma_count_owned_at_least(slots.drop_last(), i, id);
    }
}

/// Appending a slot at a fresh address adds exactly that record and keeps
/// all others; addresses stay unique.
proof fn lemma_tasks_push(pre: Store, post: Store, addr: Seq<u8>)
    requires
        post.slots@.len() == pre.slots@.len() + 1,
        forall|i: int| 0 <= i < pre.slots@.len() ==> post.slots@[i] == pre.slots@[i],
        post.slots@.last().addr@ == addr,
        forall|i: int| 0 <= i < pre.slots@.len() ==> (#[trigger] pre.slots@[i]).addr@ != addr,
        forall|p: int, q: int|
            0 <= p < q < pre.slots@.len() ==> pre.slots@[p].addr@ != pre.slots@[q].addr@,
    ensures
        forall|p: int, q: int|
            0 <= p < q < post.slots@.len() ==> post.slots@[p].addr@ != post.slots@[q].addr@,
        post.has_task(addr),
        post.task_at(addr) == post.slots@.last().task,
        forall|a: Seq<u8>|
            #![trigger post.has_task(a)]
            a != addr ==> post.has_task(a) == pre.has_task(a) && (pre.has_task(a)
                ==> post.task_at(a) == pre.task_at(a)),
{
    assert forall|p: int, q: int| 0 <= p < q < post.slots@.len() implies post.slots@[p].addr@
        != post.slots@[q].addr@ by {
        assert(post.slots@[p] == pre.slots@[p]);
        if q < pre.slots@.len() {
            assert(post.slots@[q] == pre.slots@[q]);
        }
    }
    lemma_task_at(post, addr, pre.slots@.len() as int);
    assert forall|a: Seq<u8>|
        #![trigger post.has_task(a)]
        a != addr implies post.has_task(a) == pre.has_task(a) && (pre.has_task(a)
        ==> post.task_at(a) == pre.task_at(a)) by {
        if pre.has_task(a) {
            let i = choose|i: int| 0 <= i < pre.slots@.len() && pre.slots@[i].addr@ == a;
            lemma_task_at(pre, a, i);
            assert(post.slots@[i] == pre.slots@[i]);
            lemma_task_at(post, a, i);
        } else {
            if post.has_task(a) {
                let i = choose|i: int| 0 <= i < post.slots@.len() && post.slots@[i].addr@ == a;
                assert(i < pre.slots@.len());
                assert(pre.slots@[i].addr@ == a);
            }
        }
    }
}

/// Replacing the slot at index `i` by one at the same address changes only
/// the record at that address; addresses stay unique.
proof fn lemma_tasks_update(pre: Store, post: Store, i: int)
    requires
        0 <= i < pre.slots@.len(),
        post.slots@ == pre.slots@.update(i, post.slots@[i]),
        post.slots@[i].addr@ == pre.slots@[i].addr@,
        forall|p: int, q: int|
            0 <= p < q < pre.slots@.len() ==> pre.slots@[p].addr@ != pre.slots@[q].addr@,
    ensures
        forall|p: int, q: int|
            0 <= p < q < post.slots@.len() ==> post.slots@[p].addr@ != post.slots@[q].addr@,
        post.has_task(pre.slots@[i].addr@),
        post.task_at(pre.slots@[i].addr@) == post.slots@[i].task,
        forall|a: Seq<u8>|
            #![trigger post.has_task(a)]
            a != pre.slots@[i].addr@ ==> post.has_task(a) == pre.has_task(a) && (pre.has_task(a)
                ==> post.task_at(a) == pre.task_at(a)),
{
    let addr = pre.slots@[i].addr@;
    assert forall|p: int, q: int| 0 <= p < q < post.slots@.len() implies post.slots@[p].addr@
        != post.slots@[q].addr@ by {
        assert(post.slots@[p].addr@ == pre.slots@[p].addr@);
        assert(post.slots@[q].addr@ == pre.slots@[q].addr@);
    }
    lemma_task_at(post, addr, i);
    assert forall|a: Seq<u8>|
        #![trigger post.has_task(a)]
        a != addr implies post.has_task(a) == pre.has_task(a) && (pre.has_task(a)
        ==> post.task_at(a) == pre.task_at(a)) by {
        if pre.has_task(a) {
            let j = choose|j: int| 0 <= j < pre.slots@.len() && pre.slots@[j].addr@ == a;
            assert(j != i);
            lemma_task_at(pre, a, j);
            assert(post.slots@[j] == pre.slots@[j]);
            lemma_task_at(post, a, j);
        } else {
            if post.has_task(a) {
                let j = choose|j: int| 0 <= j < post.slots@.len() && post.slots@[j].addr@ == a;
                assert(j != i);
                assert(pre.slots@[j].addr@ == a);
            }
        }
    }
}

/// Removing the slot at index `i` takes away exactly the record at its
/// address and keeps all others; addresses stay unique.
proof fn lemma_tasks_remove(pre: Store, post: Store, i: int)
    requires
        0 <= i < pre.slots@.len(),
        post.slots@ == pre.slots@.remove(i),
        forall|p: int, q: int|
            0 <= p < q < pre.slots@.len() ==> pre.slots@[p].addr@ != pre.slots@[q].addr@,
    ensures
        forall|p: int, q: int|
            0 <= p < q < post.slots@.len() ==> post.slots@[p].addr@ != post.slots@[q].addr@,
        !post.has_task(pre.slots@[i].addr@),
        forall|a: Seq<u8>|
            #![trigger post.has_task(a)]
            a != pre.slots@[i].addr@ ==> post.has_task(a) == pre.has_task(a) && (pre.has_task(a)
                ==> post.task_at(a) == pre.task_at(a)),
{
    let addr = pre.slots@[i].addr@;
    assert forall|k: int| 0 <= k < post.slots@.len() implies post.slots@[k] == (if k < i {
        pre.slots@[k]
    } else {
        pre.slots@[k + 1]
    }) by {}
    assert forall|p: int, q: int| 0 <= p < q < post.slots@.len() implies post.slots@[p].addr@
        != post.slots@[q].addr@ by {
        let p2: int = if p < i { p } else { p + 1 };
        let q2: int = if q < i { q } else { q + 1 };
        assert(post.slots@[p] == pre.slots@[p2]);
        assert(post.slots@[q] == pre.slots@[q2]);
        assert(pre.slots@[p2].addr@ != pre.slots@[q2].addr@);
    }
    assert(!post.has_task(addr)) by {
        if post.has_task(addr) {
            let k = choose|k: int| 0 <= k < post.slots@.len() && post.slots@[k].addr@ == addr;
            let k2: int = if k < i { k } else { k + 1 };
            assert(pre.slots@[k2].addr@ == addr);
            if k2 < i {
                assert(pre.slots@[k2].addr@ != pre.slots@[i].addr@);
            } else {
                assert(pre.slots@[i].addr@ != pre.slots@[k2].addr@);
            }
        }
    }
    assert forall|a: Seq<u8>|
        #![trigger post.has_task(a)]
        a != addr implies post.has_task(a) == pre.has_task(a) && (pre.has_task(a)
        ==> post.task_at(a) == pre.task_at(a)) by {
        if pre.has_task(a) {
            let j = choose|j: int| 0 <= j < pre.slots@.len() && pre.slots@[j].addr@ == a;
            assert(j != i);
            let j2: int = if j < i { j } else { j - 1 };
            assert(post.slots@[j2] == pre.slots@[j]);
            lemma_task_at(pre, a, j);
            lemma_task_at(post, a, j2);
        } else {
            if post.has_task(a) {
                let k = choose|k: int| 0 <= k < post.slots@.len() && post.slots@[k].addr@ == a;
                let k2: int = if k < i { k } else { k + 1 };
                assert(pre.slots@[k2].addr@ == a);
            }
        }
    }
}

/// An exact copy of a byte vector.
fn clone_bytes(v: &Vec<u8>) -> (r: Vec<u8>)
    ensures
        r@ == v@,
{
    let mut r: Vec<u8> = Vec::new();
    let mut i: usize = 0;
    while i < v.len()
        invariant
            i <= v@.len(),
            r@ == v@.subrange(0, i as int),
        decreases v@.len() - i,
    {
        r.push(v[i]);
        proof {
            assert(r@ =~= v@.subrange(0, i as int + 1));
        }
        i += 1;
    }
    proof {
        assert(v@.subrange(0, v@.len() as int) =~= v@);
    }
    r
}

/// Byte-for-byte equality of two 32-byte identities or addresses.
fn bytes32_eq(a: &[u8; 32], b: &[u8; 32]) -> (r: bool)
    ensures
        r == (a@ == b@),
{
    let mut i: usize = 0;
    while i < 32
        invariant
            i <= 32,
            forall|k: int| 0 <= k < i ==> a@[k] == b@[k],
        decreases 32 - i,
    {
        if a[i] != b[i] {
            return false;
        }
        i += 1;
    }
    proof {
        assert(a@ =~= b@);
    }
    true
}

} // verus!
