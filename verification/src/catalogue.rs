//! The unified catalogue: explicitly registered accounts and slot-derived
//! accounts in one listing, with lookup by identifier.
//!
//! Explicit records always come first; a broken or empty slot scan merely
//! contributes nothing (the caller passes the scan it managed to read).

use vstd::prelude::*;

use crate::account::{clone_accounts, find_by_id, find_registered_account, AccountsContainer,
    StoredAccount};
use crate::discovery::{acct_le_fn, discover_accounts_unsorted, discover_slot_accounts,
    opt_auth_ref_view};
use crate::slots::{AuthFileData, ScanEntry, SlotRegistry};
use vstd::relations::sorted_by;

verus! {

/// All accounts: the explicitly registered records in container order,
/// followed by the slot-derived accounts sorted by display label.
pub fn list_accounts(
    c: &AccountsContainer,
    reg: &SlotRegistry,
    code_home: &str,
    scan: &Vec<ScanEntry>,
    default_auth: Option<&AuthFileData>,
) -> (r: Vec<StoredAccount>)
    requires
        scan@.len() < usize::MAX - 2,
        c@.accounts.len() + scan@.len() + 2 < usize::MAX,
    ensures
        ({
            let n = c@.accounts.len() as int;
            let views = Seq::new(r@.len(), |i: int| r@[i]@);
            let unsorted = discover_accounts_unsorted(
                reg@,
                code_home@,
                Seq::new(scan@.len(), |i: int| scan@[i]@),
                opt_auth_ref_view(default_auth),
            );
            &&& views.len() == n + unsorted.len()
            &&& views.take(n) == c@.accounts
            &&& sorted_by(views.skip(n), acct_le_fn())
            &&& views.skip(n).to_multiset() == unsorted.to_multiset()
        }),
{
    broadcast use vstd::seq_lib::group_to_multiset_ensures;

    let mut out = clone_accounts(&c.accounts);
    let ghost n = c@.accounts.len() as int;
    let slot_accounts = discover_slot_accounts(reg, code_home, scan, default_auth);
    let ghost sv = Seq::new(slot_accounts@.len(), |i: int| slot_accounts@[i]@);
    let mut i: usize = 0;
    while i < slot_accounts.len()
        invariant
            i <= slot_accounts@.len(),
            sv == Seq::new(slot_accounts@.len(), |i: int| slot_accounts@[i]@),
            out@.len() == n + i,
            n == c@.accounts.len() as int,
            forall|j: int| 0 <= j < n ==> out@[j]@ == c@.accounts[j],
            forall|j: int| 0 <= j < i ==> out@[n + j]@ == sv[j],
        decreases slot_accounts@.len() - i,
    {
        out.push(slot_accounts[i].clone());
        i = i + 1;
    }
    proof {
        sv.to_multiset_ensures();
        discover_accounts_unsorted(
            reg@,
            code_home@,
            Seq::new(scan@.len(), |i: int| scan@[i]@),
            opt_auth_ref_view(default_auth),
        ).to_multiset_ensures();
        let views = Seq::new(out@.len(), |i: int| out@[i]@);
        assert(views.take(n) =~= c@.accounts);
        assert(views.skip(n) =~= sv);
    }
    out
}

/// Looks an identifier up: the registered records first, then the
/// slot-derived accounts. Exactly when neither holds the identifier is the
/// result nothing.
pub fn find_account(
    c: &AccountsContainer,
    reg: &SlotRegistry,
    code_home: &str,
    scan: &Vec<ScanEntry>,
    default_auth: Option<&AuthFileData>,
    account_id: &str,
) -> (r: Option<StoredAccount>)
    requires
        scan@.len() < usize::MAX - 2,
    ensures
        ({
            let unsorted = discover_accounts_unsorted(
                reg@,
                code_home@,
                Seq::new(scan@.len(), |i: int| scan@[i]@),
                opt_auth_ref_view(default_auth),
            );
            match find_by_id(c@.accounts, account_id@) {
                Some(i) => r matches Some(acc) && acc@ == c@.accounts[i],
                None => match r {
                    Some(acc) => acc@.id == account_id@ && unsorted.to_multiset().count(acc@) > 0,
                    None => forall|j: int|
                        0 <= j < unsorted.len() ==> (#[trigger] unsorted[j]).id != account_id@,
                },
            }
        }),
{
    broadcast use vstd::seq_lib::group_to_multiset_ensures;

    match find_registered_account(c, account_id) {
        Some(acc) => Some(acc),
        None => {
            let slot_accounts = discover_slot_accounts(reg, code_home, scan, default_auth);
            let ghost sv = Seq::new(slot_accounts@.len(), |i: int| slot_accounts@[i]@);
            let ghost unsorted = discover_accounts_unsorted(
                reg@,
                code_home@,
                Seq::new(scan@.len(), |i: int| scan@[i]@),
                opt_auth_ref_view(default_auth),
            );
            let mut i: usize = 0;
            while i < slot_accounts.len()
                invariant
                    i <= slot_accounts@.len(),
                    sv == Seq::new(slot_accounts@.len(), |i: int| slot_accounts@[i]@),
                    sv.to_multiset() == unsorted.to_multiset(),
                    find_by_id(c@.accounts, account_id@) is None,
                    unsorted == discover_accounts_unsorted(
                        reg@,
                        code_home@,
                        Seq::new(scan@.len(), |i: int| scan@[i]@),
                        opt_auth_ref_view(default_auth),
                    ),
                    forall|j: int| 0 <= j < i ==> (#[trigger] sv[j]).id != account_id@,
                decreases slot_accounts@.len() - i,
            {
                if crate::text::string_eq_str(&slot_accounts[i].id, account_id) {
                    let acc = slot_accounts[i].clone();
                    proof {
                        sv.to_multiset_ensures();
                        assert(sv[i as int] == slot_accounts@[i as int]@);
                        assert(sv.contains(sv[i as int]));
                        assert(sv.to_multiset().count(sv[i as int]) > 0);
                        assert(unsorted.to_multiset().count(acc@) > 0);
                    }
                    return Some(acc);
                }
                i = i + 1;
            }
            proof {
                assert forall|j: int|
                    0 <= j < unsorted.len() implies (#[trigger] unsorted[j]).id != account_id@ by {
                    assert(unsorted.to_multiset().count(unsorted[j]) > 0) by {
                        assert(unsorted.contains(unsorted[j]));
                    }
                    assert(sv.to_multiset().count(unsorted[j]) > 0);
                    assert(sv.contains(unsorted[j]));
                    let m = choose|m: int| 0 <= m < sv.len() && sv[m] == unsorted[j];
                    assert(sv[m].id != account_id@);
                }
            }
            None
        },
    }
}

} // verus!
