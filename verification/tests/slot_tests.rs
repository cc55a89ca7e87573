use account_select::account::{AuthMode, TokenBundle};
use account_select::catalogue::list_accounts;
use account_select::discovery::{add_slot, discover_slot_accounts, list_slots};
use account_select::slots::{rename_slot, remove_slot, slot_auth_dir, AuthFileData, ScanEntry,
    SlotRegistry};

const NOW: i64 = 1_700_000_000;
const HOME: &str = "/home/user/.code";

fn fake_tokens(account_id: &str, email: &str) -> TokenBundle {
    TokenBundle {
        email: Some(email.to_string()),
        plan_type: Some("pro".to_string()),
        access_token: "access".to_string(),
        refresh_token: "refresh".to_string(),
        account_id: Some(account_id.to_string()),
    }
}

fn chatgpt_auth(account_id: &str, email: &str) -> AuthFileData {
    AuthFileData {
        openai_api_key: None,
        tokens: Some(fake_tokens(account_id, email)),
        last_refresh: Some(NOW),
    }
}

#[test]
fn add_and_list_slots_round_trip() {
    let mut reg = SlotRegistry::new();
    let (slots, _) = list_slots(&mut reg, HOME, &Vec::new(), false);
    assert!(slots.iter().any(|slot| slot.id == "slot-default"));

    let created = add_slot(&mut reg, HOME, &Vec::new(), Some("Work"));
    assert_eq!(created.label.as_deref(), Some("Work"));

    let (slots, _) = list_slots(&mut reg, HOME, &Vec::new(), false);
    assert!(slots.iter().any(|slot| slot.id == created.id));
}

#[test]
fn rename_slot_updates_registry() {
    let mut reg = SlotRegistry::new();
    let created = add_slot(&mut reg, HOME, &Vec::new(), Some("Work"));
    let renamed = rename_slot(&mut reg, HOME, &created.id, Some("Personal"));
    let renamed = renamed.expect("slot exists");
    assert_eq!(renamed.label.as_deref(), Some("Personal"));

    let (slots, _) = list_slots(&mut reg, HOME, &Vec::new(), false);
    let slot = slots.iter().find(|slot| slot.id == created.id).expect("slot");
    assert_eq!(slot.label.as_deref(), Some("Personal"));
}

#[test]
fn remove_slot_deletes_directory() {
    let mut reg = SlotRegistry::new();
    let created = add_slot(&mut reg, HOME, &Vec::new(), Some("Work"));
    let dir = created.path.clone();
    assert_eq!(dir, format!("{HOME}/{}", created.id));
    let removed = remove_slot(&mut reg, HOME, &created.id).expect("remove");
    assert_eq!(removed.path, dir, "the caller deletes the directory at this path");
    let (slots, _) = list_slots(&mut reg, HOME, &Vec::new(), false);
    assert!(!slots.iter().any(|slot| slot.id == created.id));
}

#[test]
fn discover_slot_accounts_uses_custom_labels() {
    let mut reg = SlotRegistry::new();
    let created = add_slot(&mut reg, HOME, &Vec::new(), Some("My Slot"));
    let scan = vec![ScanEntry {
        root: HOME.to_string(),
        components: vec![created.id.clone()],
        has_auth_file: true,
        auth: Some(chatgpt_auth("acct-slot", "slot@example.com")),
    }];

    let accounts = discover_slot_accounts(&reg, HOME, &scan, None);
    let slot_account = accounts.iter().find(|acc| acc.id == created.id).expect("slot account");
    assert_eq!(slot_account.label.as_deref(), Some("My Slot"));
}

#[test]
fn list_accounts_includes_slot_directories() {
    let c = account_select::account::AccountsContainer::new();
    let reg = SlotRegistry::new();
    let scan = vec![ScanEntry {
        root: HOME.to_string(),
        components: vec!["slot-one".to_string()],
        has_auth_file: true,
        auth: Some(AuthFileData {
            openai_api_key: None,
            tokens: Some(TokenBundle {
                email: None,
                plan_type: Some("pro".to_string()),
                access_token: "access".to_string(),
                refresh_token: "refresh".to_string(),
                account_id: Some("acct-slot".to_string()),
            }),
            last_refresh: Some(NOW),
        }),
    }];

    let accounts = list_accounts(&c, &reg, HOME, &scan, None);
    let slot_account = accounts
        .iter()
        .find(|acc| acc.id.starts_with("slot-"))
        .expect("missing slot account");
    assert_eq!(slot_account.mode, AuthMode::ChatGPT);
    assert_eq!(
        slot_account.tokens.as_ref().and_then(|tokens| tokens.account_id.as_deref()),
        Some("acct-slot"),
    );
    assert!(slot_account.label.as_ref().is_some_and(|label| label.contains("Slot")));
}

#[test]
fn default_slot_is_exposed_from_root_auth() {
    let c = account_select::account::AccountsContainer::new();
    let reg = SlotRegistry::new();
    let tokens = fake_tokens("acct-default", "user@example.com");
    let auth = AuthFileData {
        openai_api_key: None,
        tokens: Some(tokens.clone()),
        last_refresh: Some(NOW),
    };

    let accounts = list_accounts(&c, &reg, HOME, &Vec::new(), Some(&auth));
    let slot = accounts.iter().find(|acc| acc.id == "slot-default").expect("slot-default missing");

    assert_eq!(slot.mode, AuthMode::ChatGPT);
    assert_eq!(
        slot.tokens.as_ref().and_then(|t| t.account_id.as_deref()),
        tokens.account_id.as_deref()
    );
    assert!(slot.label.as_ref().is_some_and(|label| label.contains("Slot default")));
}

#[test]
fn nested_slot_directories_are_discovered() {
    let c = account_select::account::AccountsContainer::new();
    let reg = SlotRegistry::new();
    let scan = vec![
        ScanEntry {
            root: HOME.to_string(),
            components: vec!["slot".to_string()],
            has_auth_file: false,
            auth: None,
        },
        ScanEntry {
            root: HOME.to_string(),
            components: vec!["slot".to_string(), "beta".to_string()],
            has_auth_file: true,
            auth: Some(AuthFileData {
                openai_api_key: Some("sk-slot".to_string()),
                tokens: None,
                last_refresh: None,
            }),
        },
    ];

    let accounts = list_accounts(&c, &reg, HOME, &scan, None);
    let slot_account =
        accounts.iter().find(|acc| acc.openai_api_key.is_some()).expect("slot not discovered");
    assert_eq!(slot_account.mode, AuthMode::ApiKey);
    assert!(slot_account.id.starts_with("slot-"));
}

#[test]
fn directories_deeper_than_two_levels_are_not_discovered() {
    let reg = SlotRegistry::new();
    let scan = vec![
        ScanEntry {
            root: HOME.to_string(),
            components: vec!["slot".to_string(), "a".to_string(), "b".to_string()],
            has_auth_file: true,
            auth: Some(AuthFileData {
                openai_api_key: Some("sk-depth-two".to_string()),
                tokens: None,
                last_refresh: None,
            }),
        },
        ScanEntry {
            root: HOME.to_string(),
            components: vec![
                "slot".to_string(),
                "a".to_string(),
                "c".to_string(),
                "d".to_string(),
            ],
            has_auth_file: true,
            auth: Some(AuthFileData {
                openai_api_key: Some("sk-too-deep".to_string()),
                tokens: None,
                last_refresh: None,
            }),
        },
    ];

    let accounts = discover_slot_accounts(&reg, HOME, &scan, None);
    assert_eq!(accounts.len(), 1, "only the directory within two nested levels counts");
    assert_eq!(accounts[0].openai_api_key.as_deref(), Some("sk-depth-two"));
}

#[test]
fn directories_below_a_credential_file_are_not_discovered() {
    let reg = SlotRegistry::new();
    let scan = vec![
        ScanEntry {
            root: HOME.to_string(),
            components: vec!["slot-top".to_string()],
            has_auth_file: true,
            auth: Some(AuthFileData {
                openai_api_key: Some("sk-top".to_string()),
                tokens: None,
                last_refresh: None,
            }),
        },
        ScanEntry {
            root: HOME.to_string(),
            components: vec!["slot-top".to_string(), "inner".to_string()],
            has_auth_file: true,
            auth: Some(AuthFileData {
                openai_api_key: Some("sk-inner".to_string()),
                tokens: None,
                last_refresh: None,
            }),
        },
    ];

    let accounts = discover_slot_accounts(&reg, HOME, &scan, None);
    assert_eq!(accounts.len(), 1);
    assert_eq!(accounts[0].openai_api_key.as_deref(), Some("sk-top"));
}

#[test]
fn default_slot_sorts_first_and_is_protected() {
    let mut reg = SlotRegistry::new();
    let _a = add_slot(&mut reg, HOME, &Vec::new(), Some("Alpha"));
    let _b = add_slot(&mut reg, HOME, &Vec::new(), Some("AAA first by label"));
    let (slots, _) = list_slots(&mut reg, HOME, &Vec::new(), false);
    assert!(slots.len() >= 3);
    assert_eq!(slots[0].id, "slot-default");
    assert!(slots[0].is_default);

    assert!(remove_slot(&mut reg, HOME, "slot-default").is_none());
    assert!(rename_slot(&mut reg, HOME, "slot-default", Some("other")).is_none());
    let (slots_after, _) = list_slots(&mut reg, HOME, &Vec::new(), false);
    assert!(slots_after.iter().any(|s| s.id == "slot-default"));
}

#[test]
fn duplicate_labels_get_numeric_suffixes() {
    let mut reg = SlotRegistry::new();
    let first = add_slot(&mut reg, HOME, &Vec::new(), Some("Work"));
    let second = add_slot(&mut reg, HOME, &Vec::new(), Some("Work"));
    let third = add_slot(&mut reg, HOME, &Vec::new(), Some("Work"));
    assert_eq!(first.id, "slot-work");
    assert_eq!(second.id, "slot-work-2");
    assert_eq!(third.id, "slot-work-3");
}

#[test]
fn empty_label_falls_back_to_custom_slug() {
    let mut reg = SlotRegistry::new();
    let created = add_slot(&mut reg, HOME, &Vec::new(), Some("   "));
    assert_eq!(created.id, "slot-custom");
    assert!(created.label.is_none());
}

#[test]
fn labels_are_sanitized_into_slugs() {
    let mut reg = SlotRegistry::new();
    let created = add_slot(&mut reg, HOME, &Vec::new(), Some("My --Fancy!! Slot"));
    assert_eq!(created.id, "slot-my-fancy-slot");
    assert_eq!(created.label.as_deref(), Some("My --Fancy!! Slot"));
}

#[test]
fn slot_auth_dir_resolves_default_and_registered_slots() {
    let mut reg = SlotRegistry::new();
    assert_eq!(slot_auth_dir(&reg, HOME, "slot-default"), HOME);
    let created = add_slot(&mut reg, HOME, &Vec::new(), Some("Work"));
    assert_eq!(slot_auth_dir(&reg, HOME, &created.id), created.path);
    assert_eq!(slot_auth_dir(&reg, HOME, "slot-elsewhere"), format!("{HOME}/slot-elsewhere"));
}

#[test]
fn find_account_checks_registered_records_then_slots() {
    let mut c = account_select::account::AccountsContainer::new();
    let registered = account_select::account::upsert_api_key_account(
        &mut c,
        "sk-registered".to_string(),
        None,
        false,
        NOW,
    );
    let reg = SlotRegistry::new();
    let scan = vec![ScanEntry {
        root: HOME.to_string(),
        components: vec!["slot-one".to_string()],
        has_auth_file: true,
        auth: Some(chatgpt_auth("acct-slot", "slot@example.com")),
    }];

    let found = account_select::catalogue::find_account(&c, &reg, HOME, &scan, None, &registered.id)
        .expect("registered account");
    assert_eq!(found.openai_api_key.as_deref(), Some("sk-registered"));

    let slot_found = account_select::catalogue::find_account(
        &c,
        &reg,
        HOME,
        &scan,
        None,
        "slot-slot-one",
    )
    .expect("slot account");
    assert_eq!(
        slot_found.tokens.as_ref().and_then(|t| t.account_id.as_deref()),
        Some("acct-slot")
    );

    assert!(account_select::catalogue::find_account(&c, &reg, HOME, &scan, None, "nobody")
        .is_none());
}

#[test]
fn registry_rows_keep_identifiers_of_moved_slots_stable() {
    let mut reg = SlotRegistry::new();
    let created = add_slot(&mut reg, HOME, &Vec::new(), Some("Work"));
    // A later scan sees the same directory; its freshly computed identifier
    // would differ, but the registry row claims the path.
    let scan = vec![ScanEntry {
        root: HOME.to_string(),
        components: vec![created.id.clone()],
        has_auth_file: true,
        auth: Some(chatgpt_auth("acct-w", "w@example.com")),
    }];
    let accounts = discover_slot_accounts(&reg, HOME, &scan, None);
    assert_eq!(accounts.len(), 1);
    assert_eq!(accounts[0].id, created.id);
}
