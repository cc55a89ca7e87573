use account_select::account::{
    get_active_account_id, remove_account, upsert_api_key_account, upsert_chatgpt_account,
    AccountsContainer, AuthMode, TokenBundle,
};
use account_select::catalogue::list_accounts;
use account_select::slots::SlotRegistry;

fn make_chatgpt_tokens(account_id: Option<&str>, email: Option<&str>) -> TokenBundle {
    TokenBundle {
        email: email.map(|s| s.to_string()),
        plan_type: Some("pro".to_string()),
        access_token: "access".to_string(),
        refresh_token: "refresh".to_string(),
        account_id: account_id.map(|s| s.to_string()),
    }
}

const NOW: i64 = 1_700_000_000;

#[test]
fn upsert_api_key_creates_and_updates() {
    let mut c = AccountsContainer::new();
    let api_key = "sk-test".to_string();
    let stored = upsert_api_key_account(&mut c, api_key.clone(), None, true, NOW);

    assert_eq!(stored.mode, AuthMode::ApiKey);
    assert_eq!(stored.openai_api_key.as_deref(), Some("sk-test"));

    let again = upsert_api_key_account(&mut c, api_key, None, false, NOW + 1);
    assert_eq!(stored.id, again.id);

    let accounts = list_accounts(&c, &SlotRegistry::new(), "/home/user/.code", &Vec::new(), None);
    assert_eq!(accounts.len(), 1);
    assert_eq!(accounts[0].id, stored.id);
}

#[test]
fn upsert_chatgpt_dedupes_by_account_id() {
    let mut c = AccountsContainer::new();
    let tokens = make_chatgpt_tokens(Some("acct-1"), Some("user@example.com"));
    let stored = upsert_chatgpt_account(&mut c, tokens, NOW, None, true, NOW);

    let tokens_updated = make_chatgpt_tokens(Some("acct-1"), Some("user@example.com"));
    let again = upsert_chatgpt_account(&mut c, tokens_updated, NOW + 5, None, false, NOW + 5);

    assert_eq!(stored.id, again.id);
    let accounts = list_accounts(&c, &SlotRegistry::new(), "/home/user/.code", &Vec::new(), None);
    assert_eq!(accounts.len(), 1);
    assert_eq!(accounts[0].id, stored.id);
}

#[test]
fn chatgpt_accounts_with_same_email_but_different_ids_are_distinct() {
    let mut c = AccountsContainer::new();

    let personal = make_chatgpt_tokens(Some("acct-personal"), Some("user@example.com"));
    let personal_id = upsert_chatgpt_account(&mut c, personal, NOW, None, true, NOW).id;

    let team = make_chatgpt_tokens(Some("acct-team"), Some("user@example.com"));
    let team_id = upsert_chatgpt_account(&mut c, team, NOW, None, false, NOW).id;

    assert_ne!(personal_id, team_id, "accounts with different IDs should not be merged");

    let accounts = list_accounts(&c, &SlotRegistry::new(), "/home/user/.code", &Vec::new(), None);
    assert_eq!(accounts.len(), 2, "both accounts should remain listed");
}

#[test]
fn remove_account_clears_active() {
    let mut c = AccountsContainer::new();
    let tokens = make_chatgpt_tokens(Some("acct-remove"), Some("user@example.com"));
    let stored = upsert_chatgpt_account(&mut c, tokens, NOW, None, true, NOW);

    let active_before = get_active_account_id(&c);
    assert_eq!(active_before.as_deref(), Some(stored.id.as_str()));

    let removed = remove_account(&mut c, &stored.id);
    assert!(removed.is_some());

    let active_after = get_active_account_id(&c);
    assert!(active_after.is_none());
}

#[test]
fn emails_are_compared_trimmed_and_case_insensitively() {
    let mut c = AccountsContainer::new();
    let first = make_chatgpt_tokens(Some("acct-x"), Some("  User@Example.COM "));
    let a = upsert_chatgpt_account(&mut c, first, NOW, None, false, NOW);
    let second = make_chatgpt_tokens(Some("acct-x"), Some("user@example.com"));
    let b = upsert_chatgpt_account(&mut c, second, NOW + 1, None, false, NOW + 1);
    assert_eq!(a.id, b.id);
    assert_eq!(c.accounts.len(), 1);
}

#[test]
fn upsert_merge_keeps_created_at_and_overwrites_label() {
    let mut c = AccountsContainer::new();
    let first = make_chatgpt_tokens(Some("acct-y"), Some("y@example.com"));
    let a = upsert_chatgpt_account(&mut c, first, NOW, Some("old".to_string()), true, NOW);
    assert_eq!(a.created_at, Some(NOW));
    let second = make_chatgpt_tokens(Some("acct-y"), Some("y@example.com"));
    let b = upsert_chatgpt_account(&mut c, second, NOW + 9, Some("new".to_string()), false, NOW + 9);
    assert_eq!(b.created_at, Some(NOW));
    assert_eq!(b.label.as_deref(), Some("new"));
    assert_eq!(b.last_refresh, Some(NOW + 9));
}

#[test]
fn set_active_unknown_id_is_recorded_but_touches_nothing() {
    let mut c = AccountsContainer::new();
    let touched =
        account_select::account::set_active_account_id(&mut c, Some("slot-default".to_string()), NOW);
    assert!(touched.is_none());
    assert_eq!(get_active_account_id(&c).as_deref(), Some("slot-default"));
}
