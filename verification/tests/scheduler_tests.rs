use std::collections::HashMap;

use account_select::account::{upsert_api_key_account, upsert_chatgpt_account, AccountsContainer,
    StoredAccount, TokenBundle};
use account_select::catalogue::list_accounts;
use account_select::scheduler::{compute_weight, slot_identity, AccountScheduler, RateLimitRecord,
    SchedulerOutcome};
use account_select::slots::SlotRegistry;

const NOW: i64 = 1_700_000_000;
const HOME: &str = "/home/user/.code";

fn snapshot_with_usage(account_id: &str, used_percent: i64, window_minutes: u64) -> RateLimitRecord {
    RateLimitRecord {
        account_id: account_id.to_string(),
        used_percent,
        window_minutes,
        next_reset_at: Some(NOW + (window_minutes as i64) * 60),
    }
}

fn record_snapshot(telemetry: &mut Vec<RateLimitRecord>, account_id: &str, used_percent: i64) {
    telemetry.push(snapshot_with_usage(account_id, used_percent, 60));
}

fn record_snapshot_with_reset(
    telemetry: &mut Vec<RateLimitRecord>,
    account_id: &str,
    used_percent: i64,
    reset_secs: Option<i64>,
) {
    let mut snap = snapshot_with_usage(account_id, used_percent, 60);
    snap.next_reset_at = reset_secs.map(|s| NOW + s);
    telemetry.push(snap);
}

fn make_chatgpt_tokens(account_id: &str) -> TokenBundle {
    TokenBundle {
        email: Some(format!("{account_id}@example.com")),
        plan_type: Some("pro".to_string()),
        access_token: "access".to_string(),
        refresh_token: "refresh".to_string(),
        account_id: Some(account_id.to_string()),
    }
}

fn catalogue(c: &AccountsContainer) -> Vec<StoredAccount> {
    list_accounts(c, &SlotRegistry::new(), HOME, &Vec::new(), None)
}

fn collect_identity_weights(
    accounts: &[StoredAccount],
    telemetry: &[RateLimitRecord],
    now: i64,
) -> Vec<(String, i64)> {
    let mut weights: Vec<(String, i64)> = Vec::new();
    for account in accounts {
        let Some(snapshot) = telemetry.iter().rev().find(|r| r.account_id == account.id) else {
            continue;
        };
        let weight = compute_weight(snapshot, now);
        if weight <= 0 {
            continue;
        }
        let identity = slot_identity(account);
        match weights.iter_mut().find(|(id, _)| *id == identity) {
            Some((_, total)) => *total += weight,
            None => weights.push((identity, weight)),
        }
    }
    weights
}

fn reference_weighted_order(weights: &[(String, i64)], iterations: usize) -> Vec<String> {
    let total_weight: i64 = weights.iter().map(|(_, w)| *w).sum();
    let mut currents: Vec<i64> = vec![0; weights.len()];
    let mut order = Vec::new();

    for _ in 0..iterations {
        for i in 0..currents.len() {
            currents[i] += weights[i].1;
        }
        let mut best: usize = 0;
        for i in 1..currents.len() {
            if currents[i] > currents[best] {
                best = i;
            }
        }
        currents[best] -= total_weight;
        order.push(weights[best].0.clone());
    }

    order
}

#[test]
fn smooth_weighted_round_robin_balances_equal_weights() {
    let mut c = AccountsContainer::new();
    let acc_a = upsert_api_key_account(&mut c, "sk-a".to_string(), None, false, NOW);
    let acc_b = upsert_api_key_account(&mut c, "sk-b".to_string(), None, false, NOW);

    let mut telemetry = Vec::new();
    record_snapshot(&mut telemetry, &acc_a.id, 50);
    record_snapshot(&mut telemetry, &acc_b.id, 50);

    let accounts = catalogue(&c);
    let mut scheduler = AccountScheduler::new();

    let mut counts: HashMap<String, usize> = HashMap::new();
    for _ in 0..20 {
        let pick = scheduler.next_account(NOW, &accounts, &telemetry).unwrap().account_id;
        if pick == acc_a.id || pick == acc_b.id {
            *counts.entry(pick).or_insert(0) += 1;
        }
    }

    let a_count = *counts.get(&acc_a.id).unwrap_or(&0);
    let b_count = *counts.get(&acc_b.id).unwrap_or(&0);
    assert!(a_count > 0 && b_count > 0, "scheduler should select both accounts");
    assert!((a_count as isize - b_count as isize).abs() <= 1);
}

#[test]
fn smooth_weighted_round_robin_respects_weight_ratios() {
    let mut c = AccountsContainer::new();
    let heavy = upsert_api_key_account(&mut c, "sk-heavy".to_string(), None, false, NOW);
    let light = upsert_api_key_account(&mut c, "sk-light".to_string(), None, false, NOW);

    // Lower used percent means higher remaining quota and a higher weight.
    let mut telemetry = Vec::new();
    record_snapshot(&mut telemetry, &heavy.id, 10);
    record_snapshot(&mut telemetry, &light.id, 50);

    let accounts = catalogue(&c);
    let mut scheduler = AccountScheduler::new();

    let mut heavy_count = 0;
    let mut light_count = 0;
    for _ in 0..40 {
        let id = scheduler.next_account(NOW, &accounts, &telemetry).unwrap().account_id;
        if id == heavy.id {
            heavy_count += 1;
        } else if id == light.id {
            light_count += 1;
        }
    }

    assert!(heavy_count > light_count, "heavier account should be chosen more often");
}

#[test]
fn scheduler_skips_account_during_cooldown() {
    let mut c = AccountsContainer::new();
    let acc_a = upsert_api_key_account(&mut c, "sk-a".to_string(), None, false, NOW);
    let acc_b = upsert_api_key_account(&mut c, "sk-b".to_string(), None, false, NOW);

    let mut telemetry = Vec::new();
    record_snapshot(&mut telemetry, &acc_a.id, 50);
    record_snapshot(&mut telemetry, &acc_b.id, 50);

    let accounts = catalogue(&c);
    let mut scheduler = AccountScheduler::new();

    let first = scheduler.next_account(NOW, &accounts, &telemetry).unwrap();
    scheduler.record_outcome(
        &first.account_id,
        SchedulerOutcome::RateLimited { resume_at: Some(NOW + 60) },
        NOW,
    );

    let second = scheduler.next_account(NOW, &accounts, &telemetry).unwrap();
    assert_ne!(first.account_id, second.account_id);
    let _ = acc_a;
    let _ = acc_b;
}

#[test]
fn cooldown_expires_and_account_returns() {
    let mut c = AccountsContainer::new();
    let acc_a = upsert_api_key_account(&mut c, "sk-a".to_string(), None, false, NOW);

    let mut telemetry = Vec::new();
    record_snapshot(&mut telemetry, &acc_a.id, 50);

    let accounts = catalogue(&c);
    let mut scheduler = AccountScheduler::new();

    let first = scheduler.next_account(NOW, &accounts, &telemetry).unwrap();
    scheduler.record_outcome(
        &first.account_id,
        SchedulerOutcome::RateLimited { resume_at: Some(NOW + 10) },
        NOW,
    );

    // Still blocked before resume time.
    assert!(scheduler.next_account(NOW + 5, &accounts, &telemetry).is_none());

    // Available after cooldown passes.
    let after = scheduler.next_account(NOW + 15, &accounts, &telemetry).unwrap();
    assert_eq!(after.account_id, first.account_id);
}

#[test]
fn scheduler_handles_duplicate_slots_and_cooldowns() {
    let mut c = AccountsContainer::new();
    let mut telemetry = Vec::new();

    let heavy =
        upsert_api_key_account(&mut c, "sk-heavy".to_string(), Some("primary".to_string()), false, NOW);
    record_snapshot(&mut telemetry, &heavy.id, 10);

    let dup_tokens = make_chatgpt_tokens("dup-account");
    let dup_slot_a =
        upsert_chatgpt_account(&mut c, dup_tokens.clone(), NOW, Some("dup-a".to_string()), false, NOW);
    record_snapshot(&mut telemetry, &dup_slot_a.id, 40);

    let dup_slot_b =
        upsert_chatgpt_account(&mut c, dup_tokens, NOW, Some("dup-b".to_string()), false, NOW);
    record_snapshot(&mut telemetry, &dup_slot_b.id, 70);

    let exhausted = upsert_api_key_account(
        &mut c,
        "sk-exhausted".to_string(),
        Some("exhausted".to_string()),
        false,
        NOW,
    );
    record_snapshot_with_reset(&mut telemetry, &exhausted.id, 100, Some(1800));

    let accounts = catalogue(&c);
    let identity_map: HashMap<String, String> =
        accounts.iter().map(|acc| (acc.id.clone(), slot_identity(acc))).collect();

    let identity_weights = collect_identity_weights(&accounts, &telemetry, NOW);
    let expected_order = reference_weighted_order(&identity_weights, 12);

    let mut scheduler = AccountScheduler::new();
    let mut actual_order = Vec::new();
    for _ in 0..12 {
        let selection = scheduler.next_account(NOW, &accounts, &telemetry).unwrap();
        let identity = identity_map.get(&selection.account_id).unwrap().clone();
        actual_order.push(identity);
    }

    assert_eq!(actual_order, expected_order);

    let exhausted_identity = identity_map.get(&exhausted.id).unwrap();
    assert!(!actual_order.iter().any(|id| id == exhausted_identity));

    // Cool down the heavy identity and ensure it is skipped until resume.
    let heavy_identity = identity_map.get(&heavy.id).unwrap().clone();
    scheduler.record_outcome(
        &heavy.id,
        SchedulerOutcome::RateLimited { resume_at: Some(NOW + 30) },
        NOW,
    );

    for _ in 0..5 {
        let identity = identity_map
            .get(&scheduler.next_account(NOW, &accounts, &telemetry).unwrap().account_id)
            .unwrap();
        assert_ne!(identity, &heavy_identity, "cooled identity should be skipped");
    }

    let resumed_identity = identity_map
        .get(&scheduler.next_account(NOW + 31, &accounts, &telemetry).unwrap().account_id)
        .unwrap()
        .clone();
    assert_eq!(resumed_identity, heavy_identity);
}

#[test]
fn rate_limit_without_resume_time_uses_default_delay() {
    let mut c = AccountsContainer::new();
    let acc = upsert_api_key_account(&mut c, "sk-a".to_string(), None, false, NOW);
    let mut telemetry = Vec::new();
    record_snapshot(&mut telemetry, &acc.id, 50);
    let accounts = catalogue(&c);
    let mut scheduler = AccountScheduler::new();

    let first = scheduler.next_account(NOW, &accounts, &telemetry).unwrap();
    scheduler.record_outcome(&first.account_id, SchedulerOutcome::RateLimited { resume_at: None }, NOW);
    assert!(scheduler.next_account(NOW + 14, &accounts, &telemetry).is_none());
    assert!(scheduler.next_account(NOW + 16, &accounts, &telemetry).is_some());
}

#[test]
fn success_outcome_clears_cooldown() {
    let mut c = AccountsContainer::new();
    let acc = upsert_api_key_account(&mut c, "sk-a".to_string(), None, false, NOW);
    let mut telemetry = Vec::new();
    record_snapshot(&mut telemetry, &acc.id, 50);
    let accounts = catalogue(&c);
    let mut scheduler = AccountScheduler::new();

    scheduler.record_outcome(&acc.id, SchedulerOutcome::RateLimited { resume_at: Some(NOW + 600) }, NOW);
    assert!(scheduler.next_account(NOW, &accounts, &telemetry).is_none());
    scheduler.record_outcome(&acc.id, SchedulerOutcome::Success, NOW);
    assert!(scheduler.next_account(NOW, &accounts, &telemetry).is_some());
}

#[test]
fn compute_weight_matches_reference_values() {
    let rec = |used: i64| snapshot_with_usage("acct", used, 60);
    // remaining/time-fraction ratios of 0.5, 0.9, 0.3, 0.6 with the urgency
    // multiplier interpolated between the anchor points, in thousandths.
    assert_eq!(compute_weight(&rec(50), NOW), 200);
    assert_eq!(compute_weight(&rec(10), NOW), 792);
    assert_eq!(compute_weight(&rec(70), NOW), 48);
    assert_eq!(compute_weight(&rec(40), NOW), 312);
    // A fully used window floors at the ratio minimum and critical urgency.
    assert_eq!(compute_weight(&rec(100), NOW), 0);
    // Without a reset time the whole window is assumed to remain.
    let no_reset = RateLimitRecord {
        account_id: "acct".to_string(),
        used_percent: 50,
        window_minutes: 60,
        next_reset_at: None,
    };
    assert_eq!(compute_weight(&no_reset, NOW), 200);
    // An imminent reset raises the ratio: 50 percent remaining over the
    // clamped 1% time fraction gives a ratio of 50, and the urgency
    // multiplier caps at 2.0: a weight of 100.0.
    let imminent = RateLimitRecord {
        account_id: "acct".to_string(),
        used_percent: 50,
        window_minutes: 60,
        next_reset_at: Some(NOW + 10),
    };
    assert_eq!(compute_weight(&imminent, NOW), 100_000);
}

#[test]
fn accounts_without_usable_credentials_are_skipped() {
    let accounts = vec![StoredAccount {
        id: "empty-key".to_string(),
        mode: account_select::account::AuthMode::ApiKey,
        label: None,
        openai_api_key: Some(String::new()),
        tokens: None,
        last_refresh: None,
        created_at: None,
        last_used_at: None,
    }];
    let mut scheduler = AccountScheduler::new();
    assert!(scheduler.next_account(NOW, &accounts, &Vec::new()).is_none());
}

#[test]
fn never_measured_accounts_are_tried_eagerly() {
    let mut c = AccountsContainer::new();
    let measured = upsert_api_key_account(&mut c, "sk-measured".to_string(), None, false, NOW);
    let fresh = upsert_api_key_account(&mut c, "sk-fresh".to_string(), None, false, NOW);
    let mut telemetry = Vec::new();
    record_snapshot(&mut telemetry, &measured.id, 10);
    let accounts = catalogue(&c);
    let mut scheduler = AccountScheduler::new();
    let first = scheduler.next_account(NOW, &accounts, &telemetry).unwrap();
    assert_eq!(first.account_id, fresh.id);
}

#[test]
fn critical_account_is_deprioritized_but_not_starved_forever() {
    let mut c = AccountsContainer::new();
    // A: ratio 0.10 (critical, urgency-floored); B: ratio 1.0 (base weight).
    let a = upsert_api_key_account(&mut c, "sk-critical".to_string(), None, false, NOW);
    let b = upsert_api_key_account(&mut c, "sk-base".to_string(), None, false, NOW);
    let mut telemetry = Vec::new();
    record_snapshot(&mut telemetry, &a.id, 90);
    record_snapshot(&mut telemetry, &b.id, 0);

    let accounts = catalogue(&c);
    let mut scheduler = AccountScheduler::new();

    let mut a_count = 0usize;
    let mut b_count = 0usize;
    for _ in 0..20 {
        let id = scheduler.next_account(NOW, &accounts, &telemetry).unwrap().account_id;
        if id == a.id {
            a_count += 1;
        } else {
            b_count += 1;
        }
    }
    assert!(b_count > a_count, "the base-weight account should dominate");

    // The minimum-weight floor guarantees the critical account is reached
    // eventually, even though its turn comes later than twenty picks.
    for _ in 0..300 {
        let id = scheduler.next_account(NOW, &accounts, &telemetry).unwrap().account_id;
        if id == a.id {
            a_count += 1;
        }
    }
    assert!(a_count >= 1, "the critical account must not be starved forever");
}

#[test]
fn slot_identity_collapses_shared_session_accounts() {
    let slot_a = StoredAccount {
        id: "slot-one".to_string(),
        mode: account_select::account::AuthMode::ChatGPT,
        label: None,
        openai_api_key: None,
        tokens: Some(make_chatgpt_tokens("upstream-1")),
        last_refresh: None,
        created_at: None,
        last_used_at: None,
    };
    let slot_b = StoredAccount { id: "slot-two".to_string(), ..slot_a.clone() };
    assert_eq!(slot_identity(&slot_a), "upstream-1");
    assert_eq!(slot_identity(&slot_a), slot_identity(&slot_b));

    let api = StoredAccount {
        id: "api-1".to_string(),
        mode: account_select::account::AuthMode::ApiKey,
        label: None,
        openai_api_key: Some("sk".to_string()),
        tokens: None,
        last_refresh: None,
        created_at: None,
        last_used_at: None,
    };
    assert_eq!(slot_identity(&api), "api-1");
}
