//! The credential store: typed representation of one stored account and its
//! persisted container, with the merge/dedup rules for inserting or updating
//! credentials.
//!
//! The container is an in-memory model of the persisted accounts document;
//! loading it from and saving it back to disk is the caller's concern, so
//! every operation here is a total function over the model.

use vstd::prelude::*;

use crate::text::{norm_eq, norm_view, str_eq_str, string_eq_str};
use vstd::pervasive::VecAdditionalExecFns;

verus! {

/// How an account authenticates: a raw API key, or a session-token bundle
/// obtained from a login flow.
#[derive(Clone, Copy, Debug, PartialEq, Eq, Structural)]
pub enum AuthMode {
    ApiKey,
    ChatGPT,
}

/// Session-token material: access/refresh tokens plus the fields read out of
/// the decoded identity token (an external account identifier and an email).
#[derive(Debug)]
pub struct TokenBundle {
    pub email: Option<String>,
    pub plan_type: Option<String>,
    pub access_token: String,
    pub refresh_token: String,
    pub account_id: Option<String>,
}

/// Mathematical view of a [`TokenBundle`].
pub struct TokenBundleV {
    pub email: Option<Seq<char>>,
    pub plan_type: Option<Seq<char>>,
    pub access_token: Seq<char>,
    pub refresh_token: Seq<char>,
    pub account_id: Option<Seq<char>>,
}

/// View of an optional string.
pub open spec fn opt_view(o: Option<String>) -> Option<Seq<char>> {
    match o {
        Some(s) => Some(s@),
        None => None,
    }
}

impl View for TokenBundle {
    type V = TokenBundleV;

    open spec fn view(&self) -> TokenBundleV {
        TokenBundleV {
            email: opt_view(self.email),
            plan_type: opt_view(self.plan_type),
            access_token: self.access_token@,
            refresh_token: self.refresh_token@,
            account_id: opt_view(self.account_id),
        }
    }
}

/// One credential record: opaque unique identifier, authentication mode,
/// optional human label, mode-specific secret payload, and bookkeeping
/// timestamps (opaque clock values supplied by the caller).
#[derive(Debug)]
pub struct StoredAccount {
    pub id: String,
    pub mode: AuthMode,
    pub label: Option<String>,
    pub openai_api_key: Option<String>,
    pub tokens: Option<TokenBundle>,
    pub last_refresh: Option<i64>,
    pub created_at: Option<i64>,
    pub last_used_at: Option<i64>,
}

/// Mathematical view of a [`StoredAccount`].
pub struct StoredAccountV {
    pub id: Seq<char>,
    pub mode: AuthMode,
    pub label: Option<Seq<char>>,
    pub openai_api_key: Option<Seq<char>>,
    pub tokens: Option<TokenBundleV>,
    pub last_refresh: Option<i64>,
    pub created_at: Option<i64>,
    pub last_used_at: Option<i64>,
}

/// View of an optional token bundle.
pub open spec fn opt_tokens_view(o: Option<TokenBundle>) -> Option<TokenBundleV> {
    match o {
        Some(t) => Some(t@),
        None => None,
    }
}

impl View for StoredAccount {
    type V = StoredAccountV;

    open spec fn view(&self) -> StoredAccountV {
        StoredAccountV {
            id: self.id@,
            mode: self.mode,
            label: opt_view(self.label),
            openai_api_key: opt_view(self.openai_api_key),
            tokens: opt_tokens_view(self.tokens),
            last_refresh: self.last_refresh,
            created_at: self.created_at,
            last_used_at: self.last_used_at,
        }
    }
}

/// The persisted catalogue of explicitly registered accounts: a schema
/// version, the optional single "active" selection, and the ordered records.
#[derive(Debug)]
pub struct AccountsContainer {
    pub version: u32,
    pub active_account_id: Option<String>,
    pub accounts: Vec<StoredAccount>,
}

/// Mathematical view of an [`AccountsContainer`].
pub struct AccountsContainerV {
    pub version: u32,
    pub active_account_id: Option<Seq<char>>,
    pub accounts: Seq<StoredAccountV>,
}

impl View for AccountsContainer {
    type V = AccountsContainerV;

    open spec fn view(&self) -> AccountsContainerV {
        AccountsContainerV {
            version: self.version,
            active_account_id: opt_view(self.active_account_id),
            accounts: Seq::new(self.accounts@.len(), |i: int| self.accounts@[i]@),
        }
    }
}

/// Clones an optional string, preserving the view.
pub fn clone_opt_string(o: &Option<String>) -> (r: Option<String>)
    ensures
        opt_view(r) == opt_view(*o),
{
    match o {
        Some(s) => Some(s.clone()),
        None => None,
    }
}

impl Clone for TokenBundle {
    fn clone(&self) -> (r: Self)
        ensures
            r@ == self@,
    {
        TokenBundle {
            email: clone_opt_string(&self.email),
            plan_type: clone_opt_string(&self.plan_type),
            access_token: self.access_token.clone(),
            refresh_token: self.refresh_token.clone(),
            account_id: clone_opt_string(&self.account_id),
        }
    }
}

/// Clones an optional token bundle, preserving the view.
pub fn clone_opt_tokens(o: &Option<TokenBundle>) -> (r: Option<TokenBundle>)
    ensures
        opt_tokens_view(r) == opt_tokens_view(*o),
{
    match o {
        Some(t) => Some(t.clone()),
        None => None,
    }
}

impl Clone for StoredAccount {
    fn clone(&self) -> (r: Self)
        ensures
            r@ == self@,
    {
        StoredAccount {
            id: self.id.clone(),
            mode: self.mode,
            label: clone_opt_string(&self.label),
            openai_api_key: clone_opt_string(&self.openai_api_key),
            tokens: clone_opt_tokens(&self.tokens),
            last_refresh: self.last_refresh,
            created_at: self.created_at,
            last_used_at: self.last_used_at,
        }
    }
}

impl AccountsContainer {
    /// An empty container, the value an absent accounts document denotes.
    pub fn new() -> (r: Self)
        ensures
            r@.version == 1,
            r@.active_account_id is None,
            r@.accounts =~= Seq::<StoredAccountV>::empty(),
    {
        AccountsContainer { version: 1, active_account_id: None, accounts: Vec::new() }
    }
}

/// The match rule for session-token credentials: an incoming bundle matches a
/// record only when both the external account identifier (byte-exact) and the
/// trimmed, case-insensitive email agree. Email alone is not enough (two
/// organizational accounts can share a human's email), and an identifier
/// without emails on both sides is treated as no match.
pub open spec fn chatgpt_match(acc: StoredAccountV, tokens: TokenBundleV) -> bool {
    &&& acc.mode == AuthMode::ChatGPT
    &&& match (acc.tokens, tokens.account_id, tokens.email) {
        (Some(et), Some(new_aid), Some(new_email)) => {
            &&& et.account_id == Some(new_aid)
            &&& match et.email {
                Some(ee) => norm_view(ee) == norm_view(new_email),
                None => false,
            }
        },
        _ => false,
    }
}

/// The match rule for API-key credentials: byte-exact key equality.
pub open spec fn apikey_match(acc: StoredAccountV, api_key: Seq<char>) -> bool {
    acc.mode == AuthMode::ApiKey && acc.openai_api_key == Some(api_key)
}

/// Executable counterpart of [`chatgpt_match`].
pub fn match_chatgpt_account(existing: &StoredAccount, tokens: &TokenBundle) -> (r: bool)
    ensures
        r == chatgpt_match(existing@, tokens@),
{
    if !matches!(existing.mode, AuthMode::ChatGPT) {
        return false;
    }
    let existing_tokens = match &existing.tokens {
        Some(t) => t,
        None => {
            return false;
        },
    };
    let aid_matches = match (&existing_tokens.account_id, &tokens.account_id) {
        (Some(a), Some(b)) => str_eq_str(a.as_str(), b.as_str()),
        _ => false,
    };
    let email_matches = match (&existing_tokens.email, &tokens.email) {
        (Some(a), Some(b)) => norm_eq(a.as_str(), b.as_str()),
        _ => false,
    };
    aid_matches && email_matches && matches!(&tokens.account_id, Some(_)) && matches!(
        &tokens.email,
        Some(_),
    )
}

/// Executable counterpart of [`apikey_match`].
pub fn match_api_key_account(existing: &StoredAccount, api_key: &str) -> (r: bool)
    ensures
        r == apikey_match(existing@, api_key@),
{
    matches!(existing.mode, AuthMode::ApiKey) && match &existing.openai_api_key {
        Some(stored) => str_eq_str(stored.as_str(), api_key),
        None => false,
    }
}

/// Index of the first record a session-token credential merges into.
pub open spec fn find_chatgpt_match(accounts: Seq<StoredAccountV>, tokens: TokenBundleV) -> Option<
    int,
>
    decreases accounts.len(),
{
    if accounts.len() == 0 {
        None
    } else if chatgpt_match(accounts[0], tokens) {
        Some(0)
    } else {
        match find_chatgpt_match(accounts.drop_first(), tokens) {
            Some(j) => Some(j + 1),
            None => None,
        }
    }
}

/// Index of the first record an API-key credential merges into.
pub open spec fn find_apikey_match(accounts: Seq<StoredAccountV>, api_key: Seq<char>) -> Option<int>
    decreases accounts.len(),
{
    if accounts.len() == 0 {
        None
    } else if apikey_match(accounts[0], api_key) {
        Some(0)
    } else {
        match find_apikey_match(accounts.drop_first(), api_key) {
            Some(j) => Some(j + 1),
            None => None,
        }
    }
}

/// Index of the first record with the given identifier.
pub open spec fn find_by_id(accounts: Seq<StoredAccountV>, id: Seq<char>) -> Option<int>
    decreases accounts.len(),
{
    if accounts.len() == 0 {
        None
    } else if accounts[0].id == id {
        Some(0)
    } else {
        match find_by_id(accounts.drop_first(), id) {
            Some(j) => Some(j + 1),
            None => None,
        }
    }
}

pub proof fn lemma_find_chatgpt_match(accounts: Seq<StoredAccountV>, tokens: TokenBundleV)
    ensures
        match find_chatgpt_match(accounts, tokens) {
            Some(i) => 0 <= i < accounts.len() && chatgpt_match(accounts[i], tokens) && forall|
                j: int,
            | 0 <= j < i ==> !chatgpt_match(accounts[j], tokens),
            None => forall|j: int| 0 <= j < accounts.len() ==> !chatgpt_match(accounts[j], tokens),
        },
    decreases accounts.len(),
{
    if accounts.len() > 0 && !chatgpt_match(accounts[0], tokens) {
        lemma_find_chatgpt_match(accounts.drop_first(), tokens);
        assert forall|j: int| 1 <= j < accounts.len() implies accounts[j]
            == accounts.drop_first()[j - 1] by {}
    }
}

pub proof fn lemma_find_apikey_match(accounts: Seq<StoredAccountV>, api_key: Seq<char>)
    ensures
        match find_apikey_match(accounts, api_key) {
            Some(i) => 0 <= i < accounts.len() && apikey_match(accounts[i], api_key) && forall|
                j: int,
            | 0 <= j < i ==> !apikey_match(accounts[j], api_key),
            None => forall|j: int| 0 <= j < accounts.len() ==> !apikey_match(accounts[j], api_key),
        },
    decreases accounts.len(),
{
    if accounts.len() > 0 && !apikey_match(accounts[0], api_key) {
        lemma_find_apikey_match(accounts.drop_first(), api_key);
        assert forall|j: int| 1 <= j < accounts.len() implies accounts[j]
            == accounts.drop_first()[j - 1] by {}
    }
}

pub proof fn lemma_find_by_id(accounts: Seq<StoredAccountV>, id: Seq<char>)
    ensures
        match find_by_id(accounts, id) {
            Some(i) => 0 <= i < accounts.len() && accounts[i].id == id && forall|j: int|
                0 <= j < i ==> accounts[j].id != id,
            None => forall|j: int| 0 <= j < accounts.len() ==> accounts[j].id != id,
        },
    decreases accounts.len(),
{
    if accounts.len() > 0 && accounts[0].id != id {
        lemma_find_by_id(accounts.drop_first(), id);
        assert forall|j: int| 1 <= j < accounts.len() implies accounts[j]
            == accounts.drop_first()[j - 1] by {}
    }
}

/// The merge rule: on a match, label, secret payload, refresh timestamp and
/// last-used timestamp are overwritten when the incoming value is present;
/// identifier, mode and creation timestamp are preserved.
pub open spec fn merge_account(existing: StoredAccountV, incoming: StoredAccountV)
    -> StoredAccountV {
    StoredAccountV {
        id: existing.id,
        mode: existing.mode,
        label: if incoming.label is Some {
            incoming.label
        } else {
            existing.label
        },
        openai_api_key: if incoming.openai_api_key is Some {
            incoming.openai_api_key
        } else {
            existing.openai_api_key
        },
        tokens: if incoming.tokens is Some {
            incoming.tokens
        } else {
            existing.tokens
        },
        last_refresh: if incoming.last_refresh is Some {
            incoming.last_refresh
        } else {
            existing.last_refresh
        },
        created_at: existing.created_at,
        last_used_at: if incoming.last_used_at is Some {
            incoming.last_used_at
        } else {
            existing.last_used_at
        },
    }
}

/// Where an incoming record lands: the first matching record per the
/// mode-specific match rule, or nowhere (appended as new).
pub open spec fn find_upsert_match(accounts: Seq<StoredAccountV>, incoming: StoredAccountV)
    -> Option<int> {
    match incoming.mode {
        AuthMode::ChatGPT => match incoming.tokens {
            Some(t) => find_chatgpt_match(accounts, t),
            None => None,
        },
        AuthMode::ApiKey => match incoming.openai_api_key {
            Some(k) => find_apikey_match(accounts, k),
            None => None,
        },
    }
}

/// Insert-or-merge on the model: merge into the first matching record, or
/// append the incoming record (stamping `created_at` when unset).
pub open spec fn upsert_model(
    c: AccountsContainerV,
    incoming: StoredAccountV,
    now: i64,
) -> (AccountsContainerV, StoredAccountV) {
    match find_upsert_match(c.accounts, incoming) {
        Some(i) => {
            let merged = merge_account(c.accounts[i], incoming);
            (AccountsContainerV { accounts: c.accounts.update(i, merged), ..c }, merged)
        },
        None => {
            let fresh = StoredAccountV {
                created_at: if incoming.created_at is None {
                    Some(now)
                } else {
                    incoming.created_at
                },
                ..incoming
            };
            (AccountsContainerV { accounts: c.accounts.push(fresh), ..c }, fresh)
        },
    }
}

/// Executable counterpart of [`merge_account`]; consumes the incoming record.
fn merge_account_exec(existing: &StoredAccount, incoming: StoredAccount) -> (r: StoredAccount)
    ensures
        r@ == merge_account(existing@, incoming@),
{
    StoredAccount {
        id: existing.id.clone(),
        mode: existing.mode,
        label: if incoming.label.is_some() {
            incoming.label
        } else {
            clone_opt_string(&existing.label)
        },
        openai_api_key: if incoming.openai_api_key.is_some() {
            incoming.openai_api_key
        } else {
            clone_opt_string(&existing.openai_api_key)
        },
        tokens: if incoming.tokens.is_some() {
            incoming.tokens
        } else {
            clone_opt_tokens(&existing.tokens)
        },
        last_refresh: if incoming.last_refresh.is_some() {
            incoming.last_refresh
        } else {
            existing.last_refresh
        },
        created_at: existing.created_at,
        last_used_at: if incoming.last_used_at.is_some() {
            incoming.last_used_at
        } else {
            existing.last_used_at
        },
    }
}

/// Finds the index the incoming record merges into, per the match rules.
fn find_upsert_index(accounts: &Vec<StoredAccount>, incoming: &StoredAccount) -> (r: Option<usize>)
    ensures
        match r {
            Some(i) => i < accounts@.len() && find_upsert_match(
                Seq::new(accounts@.len(), |k: int| accounts@[k]@),
                incoming@,
            ) == Some(i as int),
            None => find_upsert_match(Seq::new(accounts@.len(), |k: int| accounts@[k]@), incoming@)
                is None,
        },
{
    let ghost accs = Seq::new(accounts@.len(), |k: int| accounts@[k]@);
    let mut i: usize = 0;
    loop
        invariant
            i <= accounts@.len(),
            accs == Seq::new(accounts@.len(), |k: int| accounts@[k]@),
            forall|j: int| 0 <= j < i ==> !upsert_matches_at(accs, incoming@, j),
        ensures
            match find_upsert_match(accs, incoming@) {
                Some(k) => i == k && k < accs.len() && upsert_matches_at(accs, incoming@, k),
                None => i == accs.len(),
            },
        decreases accounts@.len() - i,
    {
        if i >= accounts.len() {
            proof {
                lemma_find_upsert_match_none(accs, incoming@);
            }
            break ;
        }
        let hit = match incoming.mode {
            AuthMode::ChatGPT => match &incoming.tokens {
                Some(t) => match_chatgpt_account(&accounts[i], t),
                None => false,
            },
            AuthMode::ApiKey => match &incoming.openai_api_key {
                Some(k) => match_api_key_account(&accounts[i], k.as_str()),
                None => false,
            },
        };
        if hit {
            proof {
                lemma_find_upsert_match_at(accs, incoming@, i as int);
            }
            break ;
        }
        i = i + 1;
    }
    if i < accounts.len() {
        Some(i)
    } else {
        None
    }
}

/// Whether the incoming record's match rule accepts the record at index `j`.
pub open spec fn upsert_matches_at(
    accounts: Seq<StoredAccountV>,
    incoming: StoredAccountV,
    j: int,
) -> bool {
    match incoming.mode {
        AuthMode::ChatGPT => match incoming.tokens {
            Some(t) => chatgpt_match(accounts[j], t),
            None => false,
        },
        AuthMode::ApiKey => match incoming.openai_api_key {
            Some(k) => apikey_match(accounts[j], k),
            None => false,
        },
    }
}

proof fn lemma_find_upsert_match_none(accounts: Seq<StoredAccountV>, incoming: StoredAccountV)
    requires
        forall|j: int| 0 <= j < accounts.len() ==> !upsert_matches_at(accounts, incoming, j),
    ensures
        find_upsert_match(accounts, incoming) is None,
{
    match incoming.mode {
        AuthMode::ChatGPT => match incoming.tokens {
            Some(t) => {
                lemma_find_chatgpt_match(accounts, t);
                if find_chatgpt_match(accounts, t) is Some {
                    let i = find_chatgpt_match(accounts, t)->Some_0;
                    assert(upsert_matches_at(accounts, incoming, i));
                }
            },
            None => {},
        },
        AuthMode::ApiKey => match incoming.openai_api_key {
            Some(k) => {
                lemma_find_apikey_match(accounts, k);
                if find_apikey_match(accounts, k) is Some {
                    let i = find_apikey_match(accounts, k)->Some_0;
                    assert(upsert_matches_at(accounts, incoming, i));
                }
            },
            None => {},
        },
    }
}

proof fn lemma_find_upsert_match_at(accounts: Seq<StoredAccountV>, incoming: StoredAccountV, i: int)
    requires
        0 <= i < accounts.len(),
        upsert_matches_at(accounts, incoming, i),
        forall|j: int| 0 <= j < i ==> !upsert_matches_at(accounts, incoming, j),
    ensures
        find_upsert_match(accounts, incoming) == Some(i),
{
    match incoming.mode {
        AuthMode::ChatGPT => match incoming.tokens {
            Some(t) => {
                lemma_find_chatgpt_match(accounts, t);
                match find_chatgpt_match(accounts, t) {
                    Some(k) => {
                        if k < i {
                            assert(upsert_matches_at(accounts, incoming, k));
                        }
                        if k > i {
                            assert(!chatgpt_match(accounts[i], t));
                        }
                    },
                    None => {
                        assert(!chatgpt_match(accounts[i], t));
                    },
                }
            },
            None => {},
        },
        AuthMode::ApiKey => match incoming.openai_api_key {
            Some(k) => {
                lemma_find_apikey_match(accounts, k);
                match find_apikey_match(accounts, k) {
                    Some(m) => {
                        if m < i {
                            assert(upsert_matches_at(accounts, incoming, m));
                        }
                        if m > i {
                            assert(!apikey_match(accounts[i], k));
                        }
                    },
                    None => {
                        assert(!apikey_match(accounts[i], k));
                    },
                }
            },
            None => {},
        },
    }
}

/// Insert-or-merge of one record into the container. Returns the record as
/// stored: the merged record on a match, the appended record otherwise.
pub fn upsert_account(c: &mut AccountsContainer, incoming: StoredAccount, now: i64) -> (r:
    StoredAccount)
    ensures
        (final(c)@, r@) == upsert_model(old(c)@, incoming@, now),
{
    let idx = find_upsert_index(&c.accounts, &incoming);
    match idx {
        Some(i) => {
            let merged = merge_account_exec(&c.accounts[i], incoming);
            let out = merged.clone();
            c.accounts.set(i, merged);
            proof {
                assert(final(c)@.accounts =~= old(c)@.accounts.update(
                    i as int,
                    merge_account(old(c)@.accounts[i as int], incoming@),
                ));
            }
            out
        },
        None => {
            let fresh = StoredAccount {
                created_at: if incoming.created_at.is_none() {
                    Some(now)
                } else {
                    incoming.created_at
                },
                ..incoming
            };
            let out = fresh.clone();
            c.accounts.push(fresh);
            proof {
                assert(final(c)@.accounts =~= old(c)@.accounts.push(out@));
            }
            out
        },
    }
}

/// Timestamp bookkeeping applied when an account is selected as active:
/// `created_at` is stamped when unset, and `last_used_at` is stamped when the
/// account is actually being used.
pub open spec fn touch_model(acc: StoredAccountV, now: i64, used: bool) -> StoredAccountV {
    StoredAccountV {
        created_at: if acc.created_at is None {
            Some(now)
        } else {
            acc.created_at
        },
        last_used_at: if used {
            Some(now)
        } else {
            acc.last_used_at
        },
        ..acc
    }
}

/// Recording the active selection: the pointer is always recorded; when the
/// identifier resolves to a registered record, that record is touched and
/// returned, otherwise nothing is touched and nothing is returned.
pub open spec fn set_active_model(
    c: AccountsContainerV,
    id: Option<Seq<char>>,
    now: i64,
) -> (AccountsContainerV, Option<StoredAccountV>) {
    let c1 = AccountsContainerV { active_account_id: id, ..c };
    match id {
        Some(idv) => match find_by_id(c.accounts, idv) {
            Some(i) => {
                let touched = touch_model(c.accounts[i], now, true);
                (
                    AccountsContainerV { accounts: c.accounts.update(i, touched), ..c1 },
                    Some(touched),
                )
            },
            None => (c1, None),
        },
        None => (c1, None),
    }
}

/// Removing a record: the first record with the identifier is deleted, and
/// the active pointer is cleared when it pointed at that identifier.
pub open spec fn remove_model(c: AccountsContainerV, id: Seq<char>) -> (
    AccountsContainerV,
    Option<StoredAccountV>,
) {
    let active = if c.active_account_id == Some(id) {
        None
    } else {
        c.active_account_id
    };
    match find_by_id(c.accounts, id) {
        Some(i) => (
            AccountsContainerV {
                active_account_id: active,
                accounts: c.accounts.remove(i),
                ..c
            },
            Some(c.accounts[i]),
        ),
        None => (AccountsContainerV { active_account_id: active, ..c }, None),
    }
}

/// Finds the index of the first record with the given identifier.
fn find_index_by_id(accounts: &Vec<StoredAccount>, id: &str) -> (r: Option<usize>)
    ensures
        match r {
            Some(i) => i < accounts@.len() && find_by_id(
                Seq::new(accounts@.len(), |k: int| accounts@[k]@),
                id@,
            ) == Some(i as int),
            None => find_by_id(Seq::new(accounts@.len(), |k: int| accounts@[k]@), id@) is None,
        },
{
    let ghost accs = Seq::new(accounts@.len(), |k: int| accounts@[k]@);
    let mut i: usize = 0;
    loop
        invariant
            i <= accounts@.len(),
            accs == Seq::new(accounts@.len(), |k: int| accounts@[k]@),
            forall|j: int| 0 <= j < i ==> accs[j].id != id@,
        ensures
            match find_by_id(accs, id@) {
                Some(k) => i == k && k < accs.len() && accs[k].id == id@,
                None => i == accs.len(),
            },
        decreases accounts@.len() - i,
    {
        if i >= accounts.len() {
            proof {
                lemma_find_by_id(accs, id@);
                if find_by_id(accs, id@) is Some {
                    let k = find_by_id(accs, id@)->Some_0;
                    assert(accs[k].id != id@);
                }
            }
            break ;
        }
        if string_eq_str(&accounts[i].id, id) {
            proof {
                assert(accs[i as int] == accounts@[i as int]@);
                lemma_find_by_id(accs, id@);
                match find_by_id(accs, id@) {
                    Some(k) => {
                        if k < i {
                            assert(accs[k].id != id@);
                        }
                        if k > i {
                            assert(accs[i as int].id != id@);
                        }
                    },
                    None => {
                        assert(accs[i as int].id != id@);
                    },
                }
            }
            break ;
        }
        i = i + 1;
    }
    if i < accounts.len() {
        Some(i)
    } else {
        None
    }
}

/// The single "active account" pointer of the container.
pub fn get_active_account_id(c: &AccountsContainer) -> (r: Option<String>)
    ensures
        opt_view(r) == c@.active_account_id,
{
    clone_opt_string(&c.active_account_id)
}

/// Records the active selection. If the identifier belongs to a registered
/// record, that record is touched (`last_used_at`, and `created_at` when
/// unset) and returned; an unknown identifier is still recorded but touches
/// and returns nothing.
pub fn set_active_account_id(
    c: &mut AccountsContainer,
    account_id: Option<String>,
    now: i64,
) -> (r: Option<StoredAccount>)
    ensures
        (final(c)@, opt_account_view(r)) == set_active_model(old(c)@, opt_view(account_id), now),
{
    let ghost id_view = opt_view(account_id);
    c.active_account_id = clone_opt_string(&account_id);
    match account_id {
        Some(id) => {
            match find_index_by_id(&c.accounts, id.as_str()) {
                Some(i) => {
                    let mut touched = c.accounts[i].clone();
                    if touched.created_at.is_none() {
                        touched.created_at = Some(now);
                    }
                    touched.last_used_at = Some(now);
                    let out = touched.clone();
                    c.accounts.set(i, touched);
                    proof {
                        assert(final(c)@.accounts =~= old(c)@.accounts.update(
                            i as int,
                            touch_model(old(c)@.accounts[i as int], now, true),
                        ));
                    }
                    Some(out)
                },
                None => {
                    proof {
                        assert(final(c)@.accounts =~= old(c)@.accounts);
                    }
                    None
                },
            }
        },
        None => {
            proof {
                assert(final(c)@.accounts =~= old(c)@.accounts);
            }
            None
        },
    }
}

/// View of an optional account record.
pub open spec fn opt_account_view(o: Option<StoredAccount>) -> Option<StoredAccountV> {
    match o {
        Some(a) => Some(a@),
        None => None,
    }
}

/// Deletes the record with the given identifier, clearing the active pointer
/// if it pointed there. Returns the removed record.
pub fn remove_account(c: &mut AccountsContainer, account_id: &str) -> (r: Option<StoredAccount>)
    ensures
        (final(c)@, opt_account_view(r)) == remove_model(old(c)@, account_id@),
{
    let idx = find_index_by_id(&c.accounts, account_id);
    let removed: Option<StoredAccount> = match idx {
        Some(i) => {
            let acc = c.accounts.remove(i);
            proof {
                assert(c@.accounts =~= old(c)@.accounts.remove(i as int));
            }
            Some(acc)
        },
        None => None,
    };
    let clear = match &c.active_account_id {
        Some(active) => string_eq_str(active, account_id),
        None => false,
    };
    if clear {
        c.active_account_id = None;
    }
    proof {
        assert(final(c)@.accounts =~= remove_model(old(c)@, account_id@).0.accounts);
    }
    removed
}

/// Relies on `uuid::Uuid::new_v4` and its `Display` form to draw a fresh
/// identifier for a newly stored account. Nothing is assumed of the value.
#[verifier::external_body]
fn generated_account_id() -> String {
    uuid::Uuid::new_v4().to_string()
}

/// The record an API-key upsert carries: a fresh identifier, the key as the
/// secret payload, and no timestamps.
pub open spec fn apikey_probe(
    api_key: Seq<char>,
    label: Option<Seq<char>>,
    id: Seq<char>,
) -> StoredAccountV {
    StoredAccountV {
        id: id,
        mode: AuthMode::ApiKey,
        label: label,
        openai_api_key: Some(api_key),
        tokens: None,
        last_refresh: None,
        created_at: None,
        last_used_at: None,
    }
}

/// The record a session-token upsert carries.
pub open spec fn chatgpt_probe(
    tokens: TokenBundleV,
    last_refresh: i64,
    label: Option<Seq<char>>,
    id: Seq<char>,
) -> StoredAccountV {
    StoredAccountV {
        id: id,
        mode: AuthMode::ChatGPT,
        label: label,
        openai_api_key: None,
        tokens: Some(tokens),
        last_refresh: Some(last_refresh),
        created_at: None,
        last_used_at: None,
    }
}

/// Upsert followed by the optional activation step: when `make_active` the
/// stored record's identifier becomes the active pointer and the record is
/// touched.
pub open spec fn upsert_with_options_model(
    c: AccountsContainerV,
    incoming: StoredAccountV,
    make_active: bool,
    now: i64,
) -> (AccountsContainerV, StoredAccountV) {
    let (c1, stored) = upsert_model(c, incoming, now);
    if !make_active {
        (c1, stored)
    } else {
        let (c2, touched) = set_active_model(c1, Some(stored.id), now);
        (
            c2,
            match touched {
                Some(t) => t,
                None => stored,
            },
        )
    }
}

/// Inserts or merges an API-key credential. A key matches only on byte-exact
/// equality; on a match the existing record is updated in place, otherwise a
/// new record is appended under a freshly generated identifier (which is the
/// returned record's identifier).
pub fn upsert_api_key_account(
    c: &mut AccountsContainer,
    api_key: String,
    label: Option<String>,
    make_active: bool,
    now: i64,
) -> (r: StoredAccount)
    ensures
        (final(c)@, r@) == upsert_with_options_model(
            old(c)@,
            apikey_probe(api_key@, opt_view(label), r@.id),
            make_active,
            now,
        ),
{
    let incoming = StoredAccount {
        id: generated_account_id(),
        mode: AuthMode::ApiKey,
        label: label,
        openai_api_key: Some(api_key),
        tokens: None,
        last_refresh: None,
        created_at: None,
        last_used_at: None,
    };
    let ghost fresh_id = incoming.id@;
    let ghost probe = apikey_probe(api_key@, opt_view(label), fresh_id);
    let stored = upsert_account(c, incoming, now);
    let out = if make_active {
        let touched = set_active_account_id(c, Some(stored.id.clone()), now);
        match touched {
            Some(t) => t,
            None => stored,
        }
    } else {
        stored
    };
    proof {
        let c1v = upsert_model(old(c)@, probe, now).0;
        let storedv = upsert_model(old(c)@, probe, now).1;
        lemma_find_by_id(c1v.accounts, storedv.id);
        assert(out@.id == storedv.id);
        let probe2 = apikey_probe(api_key@, opt_view(label), out@.id);
        assert(find_upsert_match(old(c)@.accounts, probe2) == find_upsert_match(
            old(c)@.accounts,
            probe,
        ));
        lemma_find_apikey_match(old(c)@.accounts, api_key@);
        match find_upsert_match(old(c)@.accounts, probe) {
            Some(i) => {
                assert(merge_account(old(c)@.accounts[i], probe2) == merge_account(
                    old(c)@.accounts[i],
                    probe,
                ));
                assert(upsert_model(old(c)@, probe2, now) == upsert_model(old(c)@, probe, now));
            },
            None => {
                assert(out@.id == fresh_id);
                assert(probe2 == probe);
            },
        }
    }
    out
}

/// Inserts or merges a session-token credential. A bundle matches only when
/// both the external account identifier and the normalized email agree; on a
/// match the record is updated in place, otherwise a new record is appended
/// under a freshly generated identifier (the returned record's identifier).
pub fn upsert_chatgpt_account(
    c: &mut AccountsContainer,
    tokens: TokenBundle,
    last_refresh: i64,
    label: Option<String>,
    make_active: bool,
    now: i64,
) -> (r: StoredAccount)
    ensures
        (final(c)@, r@) == upsert_with_options_model(
            old(c)@,
            chatgpt_probe(tokens@, last_refresh, opt_view(label), r@.id),
            make_active,
            now,
        ),
{
    let ghost tokens_view = tokens@;
    let incoming = StoredAccount {
        id: generated_account_id(),
        mode: AuthMode::ChatGPT,
        label: label,
        openai_api_key: None,
        tokens: Some(tokens),
        last_refresh: Some(last_refresh),
        created_at: None,
        last_used_at: None,
    };
    let ghost fresh_id = incoming.id@;
    let ghost probe = chatgpt_probe(tokens_view, last_refresh, opt_view(label), fresh_id);
    let stored = upsert_account(c, incoming, now);
    let out = if make_active {
        let touched = set_active_account_id(c, Some(stored.id.clone()), now);
        match touched {
            Some(t) => t,
            None => stored,
        }
    } else {
        stored
    };
    proof {
        let c1v = upsert_model(old(c)@, probe, now).0;
        let storedv = upsert_model(old(c)@, probe, now).1;
        lemma_find_by_id(c1v.accounts, storedv.id);
        assert(out@.id == storedv.id);
        let probe2 = chatgpt_probe(tokens_view, last_refresh, opt_view(label), out@.id);
        assert(find_upsert_match(old(c)@.accounts, probe2) == find_upsert_match(
            old(c)@.accounts,
            probe,
        ));
        lemma_find_chatgpt_match(old(c)@.accounts, tokens_view);
        match find_upsert_match(old(c)@.accounts, probe) {
            Some(i) => {
                assert(merge_account(old(c)@.accounts[i], probe2) == merge_account(
                    old(c)@.accounts[i],
                    probe,
                ));
                assert(upsert_model(old(c)@, probe2, now) == upsert_model(old(c)@, probe, now));
            },
            None => {
                assert(out@.id == fresh_id);
                assert(probe2 == probe);
            },
        }
    }
    out
}

/// Copies the records of a vector, preserving the views.
pub fn clone_accounts(accounts: &Vec<StoredAccount>) -> (r: Vec<StoredAccount>)
    ensures
        r@.len() == accounts@.len(),
        forall|i: int| 0 <= i < r@.len() ==> r@[i]@ == accounts@[i]@,
{
    let mut out: Vec<StoredAccount> = Vec::new();
    let mut i: usize = 0;
    while i < accounts.len()
        invariant
            i <= accounts@.len(),
            out@.len() == i,
            forall|j: int| 0 <= j < i ==> out@[j]@ == accounts@[j]@,
        decreases accounts@.len() - i,
    {
        out.push(accounts[i].clone());
        i = i + 1;
    }
    out
}

/// Looks a registered record up by identifier, returning a copy.
pub fn find_registered_account(c: &AccountsContainer, account_id: &str) -> (r: Option<
    StoredAccount,
>)
    ensures
        match find_by_id(c@.accounts, account_id@) {
            Some(i) => r matches Some(acc) && acc@ == c@.accounts[i],
            None => r is None,
        },
{
    match find_index_by_id(&c.accounts, account_id) {
        Some(i) => Some(c.accounts[i].clone()),
        None => None,
    }
}

/// Whether a record carries the given (external account identifier, email)
/// pair; emails are compared trimmed and case-insensitively.
pub open spec fn pair_matches(acc: StoredAccountV, aid: Seq<char>, email: Seq<char>) -> bool {
    &&& acc.mode == AuthMode::ChatGPT
    &&& match acc.tokens {
        Some(t) => t.account_id == Some(aid) && match t.email {
            Some(e) => norm_view(e) == norm_view(email),
            None => false,
        },
        None => false,
    }
}

/// Number of records carrying the given (account identifier, email) pair.
pub open spec fn pair_count(s: Seq<StoredAccountV>, aid: Seq<char>, email: Seq<char>) -> int
    decreases s.len(),
{
    if s.len() == 0 {
        0
    } else {
        (if pair_matches(s[0], aid, email) {
            1int
        } else {
            0int
        }) + pair_count(s.drop_first(), aid, email)
    }
}

proof fn lemma_pair_count_basics(s: Seq<StoredAccountV>, aid: Seq<char>, email: Seq<char>)
    ensures
        0 <= pair_count(s, aid, email) <= s.len(),
        (pair_count(s, aid, email) == 0 <==> forall|i: int|
            0 <= i < s.len() ==> !pair_matches(s[i], aid, email)),
    decreases s.len(),
{
    if s.len() > 0 {
        lemma_pair_count_basics(s.drop_first(), aid, email);
        assert forall|i: int| 1 <= i < s.len() implies s[i] == s.drop_first()[i - 1] by {}
        if pair_count(s, aid, email) == 0 {
            assert(!pair_matches(s[0], aid, email));
        }
        if forall|i: int| 0 <= i < s.len() ==> !pair_matches(s[i], aid, email) {
            assert forall|i: int|
                0 <= i < s.drop_first().len() implies !pair_matches(
                s.drop_first()[i],
                aid,
                email,
            ) by {
                assert(s.drop_first()[i] == s[i + 1]);
            }
        }
    }
}

proof fn lemma_pair_count_push(
    s: Seq<StoredAccountV>,
    v: StoredAccountV,
    aid: Seq<char>,
    email: Seq<char>,
)
    ensures
        pair_count(s.push(v), aid, email) == pair_count(s, aid, email) + (if pair_matches(
            v,
            aid,
            email,
        ) {
            1int
        } else {
            0int
        }),
    decreases s.len(),
{
    let m_v: int = if pair_matches(v, aid, email) {
        1
    } else {
        0
    };
    if s.len() == 0 {
        assert(s.push(v)[0] == v);
        assert(s.push(v).drop_first() =~= Seq::<StoredAccountV>::empty());
        assert(pair_count(s, aid, email) == 0);
        assert(pair_count(s.push(v).drop_first(), aid, email) == 0);
        assert(pair_count(s.push(v), aid, email) == m_v);
    } else {
        assert(s.push(v)[0] == s[0]);
        assert(s.push(v).drop_first() =~= s.drop_first().push(v));
        lemma_pair_count_push(s.drop_first(), v, aid, email);
        assert(pair_count(s.push(v).drop_first(), aid, email) == pair_count(
            s.drop_first(),
            aid,
            email,
        ) + m_v);
        assert(pair_count(s.push(v), aid, email) == (if pair_matches(s[0], aid, email) {
            1int
        } else {
            0int
        }) + pair_count(s.push(v).drop_first(), aid, email));
    }
}

proof fn lemma_pair_count_update(
    s: Seq<StoredAccountV>,
    i: int,
    v: StoredAccountV,
    aid: Seq<char>,
    email: Seq<char>,
)
    requires
        0 <= i < s.len(),
    ensures
        pair_count(s.update(i, v), aid, email) == pair_count(s, aid, email) - (if pair_matches(
            s[i],
            aid,
            email,
        ) {
            1int
        } else {
            0int
        }) + (if pair_matches(v, aid, email) {
            1int
        } else {
            0int
        }),
    decreases s.len(),
{
    if i == 0 {
        assert(s.update(0, v).drop_first() =~= s.drop_first());
    } else {
        assert(s.update(i, v).drop_first() =~= s.drop_first().update(i - 1, v));
        lemma_pair_count_update(s.drop_first(), i - 1, v, aid, email);
    }
}

proof fn lemma_pair_count_two(
    s: Seq<StoredAccountV>,
    i: int,
    j: int,
    aid: Seq<char>,
    email: Seq<char>,
)
    requires
        0 <= i < j < s.len(),
        pair_matches(s[i], aid, email),
        pair_matches(s[j], aid, email),
    ensures
        pair_count(s, aid, email) >= 2,
    decreases s.len(),
{
    lemma_pair_count_basics(s.drop_first(), aid, email);
    if i == 0 {
        assert(s.drop_first()[j - 1] == s[j]);
        assert(pair_count(s.drop_first(), aid, email) >= 1) by {
            if pair_count(s.drop_first(), aid, email) == 0 {
                assert(!pair_matches(s.drop_first()[j - 1], aid, email));
            }
        }
    } else {
        assert(s.drop_first()[i - 1] == s[i]);
        assert(s.drop_first()[j - 1] == s[j]);
        lemma_pair_count_two(s.drop_first(), i - 1, j - 1, aid, email);
    }
}

/// A container with no records holds no record for any pair: the base of
/// the dedup argument, which [`lemma_upsert_chatgpt_dedupes`] then carries
/// through every upsert.
pub proof fn lemma_empty_container_has_no_pairs(aid: Seq<char>, email: Seq<char>)
    ensures
        pair_count(Seq::<StoredAccountV>::empty(), aid, email) == 0,
{
}

/// Law: for any run of session-token upserts carrying one (account
/// identifier, email) pair, the container holds exactly one record for that
/// pair after each call, and that record's identifier never changes: a call
/// that finds the pair merges in place, keeping the existing identifier.
pub proof fn lemma_upsert_chatgpt_dedupes(
    c: AccountsContainerV,
    tokens: TokenBundleV,
    last_refresh: i64,
    label: Option<Seq<char>>,
    fresh_id: Seq<char>,
    now: i64,
    aid: Seq<char>,
    email: Seq<char>,
)
    requires
        tokens.account_id == Some(aid),
        tokens.email == Some(email),
        pair_count(c.accounts, aid, email) <= 1,
    ensures
        pair_count(
            upsert_model(c, chatgpt_probe(tokens, last_refresh, label, fresh_id), now).0.accounts,
            aid,
            email,
        ) == 1,
        forall|i: int|
            0 <= i < c.accounts.len() && pair_matches(c.accounts[i], aid, email) ==> upsert_model(
                c,
                chatgpt_probe(tokens, last_refresh, label, fresh_id),
                now,
            ).1.id == c.accounts[i].id,
{
    let probe = chatgpt_probe(tokens, last_refresh, label, fresh_id);
    lemma_find_chatgpt_match(c.accounts, tokens);
    lemma_pair_count_basics(c.accounts, aid, email);
    assert forall|i: int| 0 <= i < c.accounts.len() implies chatgpt_match(c.accounts[i], tokens)
        == pair_matches(c.accounts[i], aid, email) by {}
    match find_chatgpt_match(c.accounts, tokens) {
        Some(k) => {
            let merged = merge_account(c.accounts[k], probe);
            assert(pair_matches(merged, aid, email));
            assert(pair_matches(c.accounts[k], aid, email));
            lemma_pair_count_update(c.accounts, k, merged, aid, email);
            assert(pair_count(c.accounts, aid, email) >= 1) by {
                if pair_count(c.accounts, aid, email) == 0 {
                    assert(!pair_matches(c.accounts[k], aid, email));
                }
            }
            assert forall|i: int|
                0 <= i < c.accounts.len() && pair_matches(c.accounts[i], aid, email) implies merged
                .id == c.accounts[i].id by {
                if i != k {
                    if i < k {
                        lemma_pair_count_two(c.accounts, i, k, aid, email);
                    } else {
                        lemma_pair_count_two(c.accounts, k, i, aid, email);
                    }
                }
            }
        },
        None => {
            assert(pair_count(c.accounts, aid, email) == 0);
            let fresh = upsert_model(c, probe, now).1;
            assert(pair_matches(fresh, aid, email));
            lemma_pair_count_push(c.accounts, fresh, aid, email);
        },
    }
}

/// Law: a session-token upsert whose bundle carries a different external
/// account identifier never merges into, or disturbs, the records of the
/// (`aid`, `email`) pair — matching emails alone are not a dedup key.
pub proof fn lemma_upsert_chatgpt_other_pair_untouched(
    c: AccountsContainerV,
    tokens: TokenBundleV,
    last_refresh: i64,
    label: Option<Seq<char>>,
    fresh_id: Seq<char>,
    now: i64,
    aid: Seq<char>,
    email: Seq<char>,
    other_aid: Seq<char>,
)
    requires
        tokens.account_id == Some(other_aid),
        other_aid != aid,
    ensures
        pair_count(
            upsert_model(c, chatgpt_probe(tokens, last_refresh, label, fresh_id), now).0.accounts,
            aid,
            email,
        ) == pair_count(c.accounts, aid, email),
{
    let probe = chatgpt_probe(tokens, last_refresh, label, fresh_id);
    lemma_find_chatgpt_match(c.accounts, tokens);
    match find_chatgpt_match(c.accounts, tokens) {
        Some(k) => {
            let merged = merge_account(c.accounts[k], probe);
            assert(!pair_matches(merged, aid, email));
            assert(!pair_matches(c.accounts[k], aid, email));
            lemma_pair_count_update(c.accounts, k, merged, aid, email);
        },
        None => {
            let fresh = upsert_model(c, probe, now).1;
            assert(!pair_matches(fresh, aid, email));
            lemma_pair_count_push(c.accounts, fresh, aid, email);
        },
    }
}

/// Law: two session-token upserts sharing an email but carrying different
/// external account identifiers leave two distinct records, one per
/// identifier; no record ever answers to both pairs.
pub proof fn lemma_same_email_different_ids_two_records(
    c: AccountsContainerV,
    t1: TokenBundleV,
    t2: TokenBundleV,
    lr1: i64,
    lr2: i64,
    lb1: Option<Seq<char>>,
    lb2: Option<Seq<char>>,
    id1: Seq<char>,
    id2: Seq<char>,
    now1: i64,
    now2: i64,
    aid1: Seq<char>,
    aid2: Seq<char>,
    email: Seq<char>,
)
    requires
        t1.account_id == Some(aid1),
        t1.email == Some(email),
        t2.account_id == Some(aid2),
        t2.email == Some(email),
        aid1 != aid2,
        pair_count(c.accounts, aid1, email) <= 1,
        pair_count(c.accounts, aid2, email) <= 1,
    ensures
        ({
            let c1 = upsert_model(c, chatgpt_probe(t1, lr1, lb1, id1), now1).0;
            let c2 = upsert_model(c1, chatgpt_probe(t2, lr2, lb2, id2), now2).0;
            &&& pair_count(c2.accounts, aid1, email) == 1
            &&& pair_count(c2.accounts, aid2, email) == 1
            &&& forall|i: int|
                0 <= i < c2.accounts.len() ==> !(pair_matches(c2.accounts[i], aid1, email)
                    && pair_matches(c2.accounts[i], aid2, email))
        }),
{
    let c1 = upsert_model(c, chatgpt_probe(t1, lr1, lb1, id1), now1).0;
    lemma_upsert_chatgpt_dedupes(c, t1, lr1, lb1, id1, now1, aid1, email);
    lemma_upsert_chatgpt_other_pair_untouched(c, t1, lr1, lb1, id1, now1, aid2, email, aid1);
    lemma_upsert_chatgpt_other_pair_untouched(c1, t2, lr2, lb2, id2, now2, aid1, email, aid2);
    lemma_upsert_chatgpt_dedupes(c1, t2, lr2, lb2, id2, now2, aid2, email);
}

/// Law: removing the account the active pointer refers to clears the active
/// pointer, so a following read of the active identifier yields nothing.
pub proof fn lemma_remove_clears_active(c: AccountsContainerV, id: Seq<char>)
    requires
        c.active_account_id == Some(id),
    ensures
        remove_model(c, id).0.active_account_id is None,
{
}

} // verus!
