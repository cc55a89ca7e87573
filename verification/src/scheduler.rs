//! The quota-aware scheduler: given "now", the current catalogue and the
//! rate-limit telemetry supplied by the caller, it picks one account via
//! smooth weighted round-robin over collapsed scheduling identities, and
//! records success/rate-limit outcomes to drive cooldowns.
//!
//! Weights are fixed-point numbers in thousandths ("milli" units): a weight
//! of 1000 stands for a ratio of 1.0.

use vstd::prelude::*;

use crate::account::{clone_opt_string, opt_view, AuthMode, StoredAccount, StoredAccountV};
use crate::num::{sat_add_i64, sat_sub_i64, spec_sat_add_i64, spec_sat_sub_i64};
use crate::text::{str_eq_str, string_eq_str};
use vstd::arithmetic::div_mod::{lemma_div_is_ordered, lemma_div_is_ordered_by_denominator,
    lemma_div_pos_is_pos};
use vstd::pervasive::VecAdditionalExecFns;
use vstd::string::StringExecFns;

verus! {

/// The weight given to an account no telemetry was ever recorded for, so
/// that never-queried accounts are tried eagerly (a ratio of 10000).
pub open spec fn default_weight_milli() -> int {
    10_000_000
}

/// The smallest weight an eligible account can have (a ratio of 0.001):
/// no eligible account is ever starved forever.
pub open spec fn min_weight_milli() -> int {
    1
}

/// The fallback cooldown, in seconds, for a rate limit without a resume
/// time.
pub open spec fn default_cooldown_secs() -> int {
    15
}

/// One rate-limit telemetry record: percent of the quota window already
/// used, the window length, and the absolute end of the current window
/// when known (seconds, on the caller's clock).
#[derive(Debug)]
pub struct RateLimitRecord {
    pub account_id: String,
    pub used_percent: i64,
    pub window_minutes: u64,
    pub next_reset_at: Option<i64>,
}

/// Mathematical view of a [`RateLimitRecord`].
pub struct RateLimitRecordV {
    pub account_id: Seq<char>,
    pub used_percent: i64,
    pub window_minutes: u64,
    pub next_reset_at: Option<i64>,
}

impl View for RateLimitRecord {
    type V = RateLimitRecordV;

    open spec fn view(&self) -> RateLimitRecordV {
        RateLimitRecordV {
            account_id: self.account_id@,
            used_percent: self.used_percent,
            window_minutes: self.window_minutes,
            next_reset_at: self.next_reset_at,
        }
    }
}

impl Clone for RateLimitRecord {
    fn clone(&self) -> (r: Self)
        ensures
            r@ == self@,
    {
        RateLimitRecord {
            account_id: self.account_id.clone(),
            used_percent: self.used_percent,
            window_minutes: self.window_minutes,
            next_reset_at: self.next_reset_at,
        }
    }
}

/// The scheduler's answer: which account to use, with its label, plan and
/// the telemetry the decision was based on.
#[derive(Debug)]
pub struct AccountSelection {
    pub account_id: String,
    pub label: Option<String>,
    pub plan: Option<String>,
    pub snapshot: Option<RateLimitRecord>,
}

/// Mathematical view of an [`AccountSelection`].
pub struct AccountSelectionV {
    pub account_id: Seq<char>,
    pub label: Option<Seq<char>>,
    pub plan: Option<Seq<char>>,
    pub snapshot: Option<RateLimitRecordV>,
}

/// View of an optional telemetry record.
pub open spec fn opt_record_view(o: Option<RateLimitRecord>) -> Option<RateLimitRecordV> {
    match o {
        Some(s) => Some(s@),
        None => None,
    }
}

impl View for AccountSelection {
    type V = AccountSelectionV;

    open spec fn view(&self) -> AccountSelectionV {
        AccountSelectionV {
            account_id: self.account_id@,
            label: opt_view(self.label),
            plan: opt_view(self.plan),
            snapshot: opt_record_view(self.snapshot),
        }
    }
}

/// The reported outcome of a request made with an account.
#[derive(Clone, Copy, Debug)]
pub enum SchedulerOutcome {
    Success,
    RateLimited { resume_at: Option<i64> },
}

/// One cooldown: the account is not selectable until `resume_at`.
#[derive(Debug)]
pub struct CooldownEntry {
    pub account_id: String,
    pub resume_at: i64,
}

/// Mathematical view of a [`CooldownEntry`].
pub struct CooldownEntryV {
    pub account_id: Seq<char>,
    pub resume_at: i64,
}

impl View for CooldownEntry {
    type V = CooldownEntryV;

    open spec fn view(&self) -> CooldownEntryV {
        CooldownEntryV { account_id: self.account_id@, resume_at: self.resume_at }
    }
}

/// One identity's carried round-robin state.
#[derive(Debug)]
pub struct WrrEntry {
    pub identity: String,
    pub weight: i64,
    pub current: i64,
}

/// Mathematical view of a [`WrrEntry`].
pub struct WrrEntryV {
    pub identity: Seq<char>,
    pub weight: i64,
    pub current: i64,
}

impl View for WrrEntry {
    type V = WrrEntryV;

    open spec fn view(&self) -> WrrEntryV {
        WrrEntryV { identity: self.identity@, weight: self.weight, current: self.current }
    }
}

/// Picks the next account to use for a request based on remaining quota,
/// reset timers, and recent rate-limit cooldowns.
#[derive(Debug)]
pub struct AccountScheduler {
    pub cooldowns: Vec<CooldownEntry>,
    pub weights: Vec<WrrEntry>,
}

/// Mathematical view of an [`AccountScheduler`].
pub struct AccountSchedulerV {
    pub cooldowns: Seq<CooldownEntryV>,
    pub weights: Seq<WrrEntryV>,
}

impl View for AccountScheduler {
    type V = AccountSchedulerV;

    open spec fn view(&self) -> AccountSchedulerV {
        AccountSchedulerV {
            cooldowns: Seq::new(self.cooldowns@.len(), |i: int| self.cooldowns@[i]@),
            weights: Seq::new(self.weights@.len(), |i: int| self.weights@[i]@),
        }
    }
}

/// The raw quota ratio, in thousandths: remaining percent divided by the
/// clamped fraction of the window still to run, divided by 100. It rises as
/// the reset approaches and falls as more of the window remains.
pub open spec fn priority_ratio_milli(rec: RateLimitRecordV, now: i64) -> int {
    let total_minutes: int = if rec.window_minutes >= 1 {
        rec.window_minutes as int
    } else {
        1
    };
    let total_secs = total_minutes * 60;
    let remaining_pct: int = if 100 - rec.used_percent < 0 {
        0
    } else if 100 - rec.used_percent > 100 {
        100
    } else {
        100 - rec.used_percent
    };
    let secs_rem: int = match rec.next_reset_at {
        Some(t) => if t - now < 0 {
            0
        } else {
            t - now
        },
        None => total_secs,
    };
    let secs100: int = if secs_rem * 100 < total_secs {
        total_secs
    } else if secs_rem * 100 > total_secs * 100 {
        total_secs * 100
    } else {
        secs_rem * 100
    };
    remaining_pct * total_secs * 1000 / secs100
}

/// The urgency multiplier, in thousandths, as a function of the ratio:
/// critical ratios are deprioritized but never zeroed, large surpluses are
/// boosted, with linear interpolation between the anchor points.
pub open spec fn urgency_milli(ratio: int) -> int {
    if ratio <= 250 {
        100
    } else if ratio >= 4000 {
        2000
    } else if ratio < 1000 {
        100 + (ratio - 250) * 900 / 750
    } else if ratio < 1500 {
        1000
    } else {
        1000 + (ratio - 1500) * 1000 / 2500
    }
}

/// The health multiplier, in thousandths: a reserved hook for future
/// account-health signals, currently always neutral.
pub open spec fn health_milli(rec: RateLimitRecordV) -> int {
    1000
}

/// The weight of an account with telemetry, in thousandths: the floored
/// ratio times the urgency and health multipliers.
pub open spec fn compute_weight_milli(rec: RateLimitRecordV, now: i64) -> int {
    let ratio = priority_ratio_milli(rec, now);
    let floored = if ratio >= min_weight_milli() {
        ratio
    } else {
        min_weight_milli()
    };
    floored * urgency_milli(ratio) / 1000 * health_milli(rec) / 1000
}

/// The ratio is between 0 and 100000 (a ratio of 100).
pub proof fn lemma_ratio_bounds(rec: RateLimitRecordV, now: i64)
    ensures
        0 <= priority_ratio_milli(rec, now) <= 100_000,
{
    let total_minutes: int = if rec.window_minutes >= 1 {
        rec.window_minutes as int
    } else {
        1
    };
    let total_secs = total_minutes * 60;
    let remaining_pct: int = if 100 - rec.used_percent < 0 {
        0
    } else if 100 - rec.used_percent > 100 {
        100
    } else {
        100 - rec.used_percent
    };
    let secs_rem: int = match rec.next_reset_at {
        Some(t) => if t - now < 0 {
            0
        } else {
            t - now
        },
        None => total_secs,
    };
    let secs100: int = if secs_rem * 100 < total_secs {
        total_secs
    } else if secs_rem * 100 > total_secs * 100 {
        total_secs * 100
    } else {
        secs_rem * 100
    };
    assert(total_secs >= 60);
    assert(secs100 >= total_secs) by (nonlinear_arith)
        requires
            total_secs >= 60,
            secs100 == (if secs_rem * 100 < total_secs {
                total_secs
            } else if secs_rem * 100 > total_secs * 100 {
                total_secs * 100
            } else {
                secs_rem * 100
            }),
    ;
    let num = remaining_pct * total_secs * 1000;
    assert(0 <= num <= total_secs * 100_000) by (nonlinear_arith)
        requires
            0 <= remaining_pct <= 100,
            total_secs >= 60,
            num == remaining_pct * total_secs * 1000,
    ;
    lemma_div_pos_is_pos(num, secs100);
    lemma_div_is_ordered(num, total_secs * 100_000, secs100);
    lemma_div_is_ordered_by_denominator(total_secs * 100_000, total_secs, secs100);
    assert(total_secs * 100_000 / total_secs == 100_000) by (nonlinear_arith)
        requires
            total_secs >= 60,
    ;
}

/// The urgency multiplier is between 100 and 2000.
pub proof fn lemma_urgency_bounds(ratio: int)
    ensures
        100 <= urgency_milli(ratio) <= 2000,
{
    if 250 < ratio < 1000 {
        assert(0 <= (ratio - 250) * 900 <= 674_100) by (nonlinear_arith)
            requires
                250 < ratio < 1000,
        ;
        lemma_div_pos_is_pos((ratio - 250) * 900, 750);
        lemma_div_is_ordered((ratio - 250) * 900, 674_100, 750);
    } else if 1500 <= ratio < 4000 {
        assert(0 <= (ratio - 1500) * 1000 <= 2_499_000) by (nonlinear_arith)
            requires
                1500 <= ratio < 4000,
        ;
        lemma_div_pos_is_pos((ratio - 1500) * 1000, 2500);
        lemma_div_is_ordered((ratio - 1500) * 1000, 2_499_000, 2500);
    }
}

/// The weight of an account with telemetry is between 0 and 200000.
pub proof fn lemma_weight_bounds(rec: RateLimitRecordV, now: i64)
    ensures
        0 <= compute_weight_milli(rec, now) <= 200_000,
{
    let ratio = priority_ratio_milli(rec, now);
    lemma_ratio_bounds(rec, now);
    lemma_urgency_bounds(ratio);
    let floored = if ratio >= min_weight_milli() {
        ratio
    } else {
        min_weight_milli()
    };
    let urg = urgency_milli(ratio);
    assert(0 <= floored * urg <= 200_000_000) by (nonlinear_arith)
        requires
            1 <= floored <= 100_000,
            100 <= urg <= 2000,
    ;
    lemma_div_pos_is_pos(floored * urg, 1000);
    lemma_div_is_ordered(floored * urg, 200_000_000, 1000);
    let q = floored * urg / 1000;
    assert(0 <= q * 1000 <= 200_000_000) by (nonlinear_arith)
        requires
            0 <= q <= 200_000,
    ;
    lemma_div_pos_is_pos(q * 1000, 1000);
    lemma_div_is_ordered(q * 1000, 200_000_000, 1000);
    assert(q * 1000 / 1000 == q) by (nonlinear_arith)
        requires
            0 <= q,
    ;
}

/// Computes an account's weight, in thousandths, from one telemetry record.
pub fn compute_weight(rec: &RateLimitRecord, now: i64) -> (r: i64)
    ensures
        r as int == compute_weight_milli(rec@, now),
        0 <= r <= 200_000,
{
    let total_minutes: u128 = if rec.window_minutes >= 1 {
        rec.window_minutes as u128
    } else {
        1
    };
    let total_secs: u128 = total_minutes * 60;
    let remaining_pct: u128 = if rec.used_percent >= 100 {
        0
    } else if rec.used_percent <= 0 {
        100
    } else {
        (100 - rec.used_percent) as u128
    };
    let secs_rem: u128 = match rec.next_reset_at {
        Some(t) => {
            if t <= now {
                0
            } else {
                let d: i128 = (t as i128) - (now as i128);
                d as u128
            }
        },
        None => total_secs,
    };
    proof {
        assert(total_secs <= 0x3c0_0000_0000_0000_0000);
        assert(secs_rem <= 0x3c0_0000_0000_0000_0000);
    }
    let secs_rem_100: u128 = secs_rem * 100;
    let secs100: u128 = if secs_rem_100 < total_secs {
        total_secs
    } else if secs_rem_100 > total_secs * 100 {
        total_secs * 100
    } else {
        secs_rem_100
    };
    proof {
        assert(remaining_pct * total_secs <= 100 * 0x3c0_0000_0000_0000_0000) by (nonlinear_arith)
            requires
                0 <= remaining_pct <= 100,
                0 <= total_secs <= 0x3c0_0000_0000_0000_0000,
        ;
    }
    let pt: u128 = remaining_pct * total_secs;
    let num: u128 = pt * 1000;
    let ratio: u128 = num / secs100;
    proof {
        lemma_ratio_bounds(rec@, now);
        assert(ratio as int == priority_ratio_milli(rec@, now));
    }
    let ratio64: i64 = ratio as i64;
    let urgency: i64 = urgency_multiplier(ratio64);
    let health: i64 = health_multiplier(rec);
    let floored: i64 = if ratio64 >= 1 {
        ratio64
    } else {
        1
    };
    proof {
        lemma_weight_bounds(rec@, now);
        lemma_urgency_bounds(ratio as int);
        assert(1 <= floored <= 100_000);
        assert(floored * urgency <= 200_000_000) by (nonlinear_arith)
            requires
                1 <= floored <= 100_000,
                100 <= urgency <= 2000,
        ;
        assert(floored * urgency >= 0) by (nonlinear_arith)
            requires
                1 <= floored,
                100 <= urgency,
        ;
        lemma_div_pos_is_pos(floored * urgency, 1000);
        lemma_div_is_ordered(floored * urgency, 200_000_000, 1000);
    }
    let q: i64 = floored * urgency / 1000;
    proof {
        assert(0 <= q * health <= 200_000_000) by (nonlinear_arith)
            requires
                0 <= q <= 200_000,
                health == 1000,
        ;
        lemma_div_pos_is_pos(q * health, 1000);
        lemma_div_is_ordered(q * health, 200_000_000, 1000);
    }
    q * health / 1000
}

/// The urgency multiplier, in thousandths.
pub fn urgency_multiplier(ratio: i64) -> (r: i64)
    requires
        0 <= ratio <= 100_000,
    ensures
        r as int == urgency_milli(ratio as int),
        100 <= r <= 2000,
{
    proof {
        lemma_urgency_bounds(ratio as int);
    }
    if ratio <= 250 {
        100
    } else if ratio >= 4000 {
        2000
    } else if ratio < 1000 {
        100 + (ratio - 250) * 900 / 750
    } else if ratio < 1500 {
        1000
    } else {
        1000 + (ratio - 1500) * 1000 / 2500
    }
}

/// The health multiplier, in thousandths: a hook for future account-health
/// signals, currently always neutral.
pub fn health_multiplier(rec: &RateLimitRecord) -> (r: i64)
    ensures
        r as int == health_milli(rec@),
{
    1000
}

/// Whether an account has usable credentials: an API-key account needs a
/// non-empty key, a session-token account a populated bundle.
pub open spec fn has_credentials(acc: StoredAccountV) -> bool {
    match acc.mode {
        AuthMode::ApiKey => match acc.openai_api_key {
            Some(k) => k.len() > 0,
            None => false,
        },
        AuthMode::ChatGPT => acc.tokens is Some,
    }
}

/// Executable counterpart of [`has_credentials`].
pub fn has_credentials_exec(account: &StoredAccount) -> (r: bool)
    ensures
        r == has_credentials(account@),
{
    match account.mode {
        AuthMode::ApiKey => match &account.openai_api_key {
            Some(k) => k.unicode_len() > 0,
            None => false,
        },
        AuthMode::ChatGPT => account.tokens.is_some(),
    }
}

/// The scheduling identity an account belongs to: session-token accounts
/// carrying an external account identifier share that identifier (two slots
/// logged into one upstream account are one identity); every other account
/// is its own identity.
pub open spec fn slot_identity_view(acc: StoredAccountV) -> Seq<char> {
    match acc.tokens {
        Some(t) => if acc.mode == AuthMode::ChatGPT {
            match t.account_id {
                Some(a) => a,
                None => acc.id,
            }
        } else {
            acc.id
        },
        None => acc.id,
    }
}

/// Executable counterpart of [`slot_identity_view`].
pub fn slot_identity(account: &StoredAccount) -> (r: String)
    ensures
        r@ == slot_identity_view(account@),
{
    match &account.tokens {
        Some(t) => {
            if matches!(account.mode, AuthMode::ChatGPT) {
                match &t.account_id {
                    Some(a) => a.clone(),
                    None => account.id.clone(),
                }
            } else {
                account.id.clone()
            }
        },
        None => account.id.clone(),
    }
}

/// Cooldowns still in force at `now`, in order.
pub open spec fn prune_cooldowns_model(s: Seq<CooldownEntryV>, now: i64) -> Seq<CooldownEntryV>
    decreases s.len(),
{
    if s.len() == 0 {
        Seq::<CooldownEntryV>::empty()
    } else {
        let rest = prune_cooldowns_model(s.drop_last(), now);
        if s.last().resume_at > now {
            rest.push(s.last())
        } else {
            rest
        }
    }
}

/// Whether a cooldown blocks the account at `now`.
pub open spec fn cooldown_blocked(s: Seq<CooldownEntryV>, id: Seq<char>, now: i64) -> bool {
    exists|i: int| 0 <= i < s.len() && s[i].account_id == id && s[i].resume_at > now
}

/// The cooldowns with any entry for `id` removed.
pub open spec fn cooldowns_without(s: Seq<CooldownEntryV>, id: Seq<char>) -> Seq<CooldownEntryV>
    decreases s.len(),
{
    if s.len() == 0 {
        Seq::<CooldownEntryV>::empty()
    } else {
        let rest = cooldowns_without(s.drop_last(), id);
        if s.last().account_id == id {
            rest
        } else {
            rest.push(s.last())
        }
    }
}

/// Recording an outcome: a success clears the account's cooldown; a rate
/// limit sets it to the given resume time, or to `now` plus a conservative
/// default delay when none was given.
pub open spec fn record_outcome_model(
    st: AccountSchedulerV,
    id: Seq<char>,
    outcome: SchedulerOutcome,
    now: i64,
) -> AccountSchedulerV {
    match outcome {
        SchedulerOutcome::Success => AccountSchedulerV {
            cooldowns: cooldowns_without(st.cooldowns, id),
            ..st
        },
        SchedulerOutcome::RateLimited { resume_at } => {
            let resume = match resume_at {
                Some(t) => t,
                None => spec_sat_add_i64(now, default_cooldown_secs() as i64),
            };
            AccountSchedulerV {
                cooldowns: cooldowns_without(st.cooldowns, id).push(
                    CooldownEntryV { account_id: id, resume_at: resume },
                ),
                ..st
            }
        },
    }
}

impl AccountScheduler {
    /// A scheduler with no cooldowns and no carried round-robin state.
    pub fn new() -> (r: Self)
        ensures
            r@.cooldowns =~= Seq::<CooldownEntryV>::empty(),
            r@.weights =~= Seq::<WrrEntryV>::empty(),
    {
        AccountScheduler { cooldowns: Vec::new(), weights: Vec::new() }
    }

    /// Records the outcome of a request made with the account.
    pub fn record_outcome(&mut self, account_id: &str, outcome: SchedulerOutcome, now: i64)
        ensures
            final(self)@ == record_outcome_model(old(self)@, account_id@, outcome, now),
    {
        let mut kept: Vec<CooldownEntry> = Vec::new();
        let n = self.cooldowns.len();
        let ghost cds = old(self)@.cooldowns;
        let mut i: usize = 0;
        while i < n
            invariant
                i <= n,
                n == self.cooldowns@.len(),
                cds == Seq::new(self.cooldowns@.len(), |k: int| self.cooldowns@[k]@),
                Seq::new(kept@.len(), |k: int| kept@[k]@) =~= cooldowns_without(
                    cds.take(i as int),
                    account_id@,
                ),
            decreases n - i,
        {
            proof {
                assert(cds.take(i + 1).drop_last() =~= cds.take(i as int));
                assert(cds.take(i + 1).last() == cds[i as int]);
            }
            if !string_eq_str(&self.cooldowns[i].account_id, account_id) {
                let e = CooldownEntry {
                    account_id: self.cooldowns[i].account_id.clone(),
                    resume_at: self.cooldowns[i].resume_at,
                };
                kept.push(e);
            }
            proof {
                assert(Seq::new(kept@.len(), |k: int| kept@[k]@) =~= cooldowns_without(
                    cds.take(i + 1),
                    account_id@,
                ));
            }
            i = i + 1;
        }
        proof {
            assert(cds.take(n as int) =~= cds);
        }
        match outcome {
            SchedulerOutcome::Success => {
                self.cooldowns = kept;
            },
            SchedulerOutcome::RateLimited { resume_at } => {
                let resume: i64 = match resume_at {
                    Some(t) => t,
                    None => sat_add_i64(now, 15),
                };
                kept.push(
                    CooldownEntry { account_id: String::from_str(account_id), resume_at: resume },
                );
                self.cooldowns = kept;
            },
        }
        proof {
            assert(final(self)@.cooldowns =~= record_outcome_model(
                old(self)@,
                account_id@,
                outcome,
                now,
            ).cooldowns);
            assert(final(self)@.weights =~= old(self)@.weights);
        }
    }
}

/// One selectable account with its computed weight and identity.
pub struct Candidate {
    pub selection: AccountSelection,
    pub weight: i64,
    pub identity: String,
}

/// Mathematical view of a [`Candidate`].
pub struct CandidateV {
    pub selection: AccountSelectionV,
    pub weight: i64,
    pub identity: Seq<char>,
}

impl View for Candidate {
    type V = CandidateV;

    open spec fn view(&self) -> CandidateV {
        CandidateV { selection: self.selection@, weight: self.weight, identity: self.identity@ }
    }
}

/// View of an optional selection.
pub open spec fn opt_selection_view(o: Option<AccountSelection>) -> Option<AccountSelectionV> {
    match o {
        Some(s) => Some(s@),
        None => None,
    }
}

/// Index of the last telemetry record for the account (later records
/// supersede earlier ones).
pub open spec fn find_telemetry_last(tel: Seq<RateLimitRecordV>, id: Seq<char>) -> Option<int>
    decreases tel.len(),
{
    if tel.len() == 0 {
        None
    } else if tel.last().account_id == id {
        Some(tel.len() - 1)
    } else {
        find_telemetry_last(tel.drop_last(), id)
    }
}

/// The plan name carried in an account's session token, if any.
pub open spec fn plan_of(acc: StoredAccountV) -> Option<Seq<char>> {
    match acc.tokens {
        Some(t) => t.plan_type,
        None => None,
    }
}

/// The weight an account enters selection with: computed from its last
/// telemetry record and floored at the minimum, or the large default when
/// it was never measured.
pub open spec fn candidate_weight(tel: Seq<RateLimitRecordV>, id: Seq<char>, now: i64) -> int {
    match find_telemetry_last(tel, id) {
        Some(j) => if compute_weight_milli(tel[j], now) >= min_weight_milli() {
            compute_weight_milli(tel[j], now)
        } else {
            min_weight_milli()
        },
        None => default_weight_milli(),
    }
}

/// The candidate an eligible account becomes.
pub open spec fn candidate_of(acc: StoredAccountV, tel: Seq<RateLimitRecordV>, now: i64)
    -> CandidateV {
    CandidateV {
        selection: AccountSelectionV {
            account_id: acc.id,
            label: acc.label,
            plan: plan_of(acc),
            snapshot: match find_telemetry_last(tel, acc.id) {
                Some(j) => Some(tel[j]),
                None => None,
            },
        },
        weight: candidate_weight(tel, acc.id, now) as i64,
        identity: slot_identity_view(acc),
    }
}

/// The candidates: catalogued accounts with usable credentials that are not
/// in cooldown, in catalogue order.
pub open spec fn candidates_model(
    accounts: Seq<StoredAccountV>,
    tel: Seq<RateLimitRecordV>,
    cds: Seq<CooldownEntryV>,
    now: i64,
) -> Seq<CandidateV>
    decreases accounts.len(),
{
    if accounts.len() == 0 {
        Seq::<CandidateV>::empty()
    } else {
        let rest = candidates_model(accounts.drop_last(), tel, cds, now);
        let a = accounts.last();
        if has_credentials(a) && !cooldown_blocked(cds, a.id, now) {
            rest.push(candidate_of(a, tel, now))
        } else {
            rest
        }
    }
}

/// One identity's summed weight.
pub struct TotalEntry {
    pub identity: String,
    pub total: i64,
}

/// Mathematical view of a [`TotalEntry`].
pub struct TotalV {
    pub identity: Seq<char>,
    pub total: i64,
}

impl View for TotalEntry {
    type V = TotalV;

    open spec fn view(&self) -> TotalV {
        TotalV { identity: self.identity@, total: self.total }
    }
}

/// Index of the first total for the identity.
pub open spec fn find_total(totals: Seq<TotalV>, id: Seq<char>) -> Option<int>
    decreases totals.len(),
{
    if totals.len() == 0 {
        None
    } else if totals[0].identity == id {
        Some(0)
    } else {
        match find_total(totals.drop_first(), id) {
            Some(j) => Some(j + 1),
            None => None,
        }
    }
}

pub proof fn lemma_find_total(totals: Seq<TotalV>, id: Seq<char>)
    ensures
        match find_total(totals, id) {
            Some(i) => 0 <= i < totals.len() && totals[i].identity == id && forall|j: int|
                0 <= j < i ==> totals[j].identity != id,
            None => forall|j: int| 0 <= j < totals.len() ==> totals[j].identity != id,
        },
    decreases totals.len(),
{
    if totals.len() > 0 && totals[0].identity != id {
        lemma_find_total(totals.drop_first(), id);
        assert forall|j: int| 1 <= j < totals.len() implies totals[j] == totals.drop_first()[j
            - 1] by {}
    }
}

/// One candidate folded into the per-identity totals: added to its
/// identity's sum, or opening a new identity at the end.
pub open spec fn add_candidate_total(totals: Seq<TotalV>, c: CandidateV) -> Seq<TotalV> {
    match find_total(totals, c.identity) {
        Some(i) => totals.update(
            i,
            TotalV { identity: c.identity, total: spec_sat_add_i64(totals[i].total, c.weight) },
        ),
        None => totals.push(TotalV { identity: c.identity, total: c.weight }),
    }
}

/// The per-identity summed weights, identities in first-appearance order.
pub open spec fn totals_model(cands: Seq<CandidateV>) -> Seq<TotalV>
    decreases cands.len(),
{
    if cands.len() == 0 {
        Seq::<TotalV>::empty()
    } else {
        add_candidate_total(totals_model(cands.drop_last()), cands.last())
    }
}

/// Index of the first carried round-robin state for the identity.
pub open spec fn find_wrr(weights: Seq<WrrEntryV>, id: Seq<char>) -> Option<int>
    decreases weights.len(),
{
    if weights.len() == 0 {
        None
    } else if weights[0].identity == id {
        Some(0)
    } else {
        match find_wrr(weights.drop_first(), id) {
            Some(j) => Some(j + 1),
            None => None,
        }
    }
}

pub proof fn lemma_find_wrr(weights: Seq<WrrEntryV>, id: Seq<char>)
    ensures
        match find_wrr(weights, id) {
            Some(i) => 0 <= i < weights.len() && weights[i].identity == id && forall|j: int|
                0 <= j < i ==> weights[j].identity != id,
            None => forall|j: int| 0 <= j < weights.len() ==> weights[j].identity != id,
        },
    decreases weights.len(),
{
    if weights.len() > 0 && weights[0].identity != id {
        lemma_find_wrr(weights.drop_first(), id);
        assert forall|j: int| 1 <= j < weights.len() implies weights[j] == weights.drop_first()[j
            - 1] by {}
    }
}

/// The carried counter of an identity, zero for one never seen.
pub open spec fn old_current(weights: Seq<WrrEntryV>, id: Seq<char>) -> i64 {
    match find_wrr(weights, id) {
        Some(i) => weights[i].current,
        None => 0,
    }
}

/// One round-robin round, before the winner is charged: every identity with
/// a positive summed weight keeps its carried counter (identities that
/// disappeared are dropped, fresh ones start at zero) and adds its weight.
pub open spec fn new_states_model(weights: Seq<WrrEntryV>, totals: Seq<TotalV>) -> Seq<
    WrrEntryV,
> {
    Seq::new(
        totals.len(),
        |i: int|
            WrrEntryV {
                identity: totals[i].identity,
                weight: totals[i].total,
                current: spec_sat_add_i64(old_current(weights, totals[i].identity), totals[i].total),
            },
    )
}

/// The sum of all identities' weights.
pub open spec fn sum_totals(totals: Seq<TotalV>) -> i64
    decreases totals.len(),
{
    if totals.len() == 0 {
        0
    } else {
        spec_sat_add_i64(sum_totals(totals.drop_last()), totals.last().total)
    }
}

/// The winner of a round: the first index whose counter no later counter
/// strictly exceeds.
pub open spec fn argmax_current(states: Seq<WrrEntryV>) -> int
    decreases states.len(),
{
    if states.len() <= 1 {
        0
    } else {
        let b = argmax_current(states.drop_last());
        if states.last().current > states[b].current {
            states.len() - 1
        } else {
            b
        }
    }
}

pub proof fn lemma_argmax_current(states: Seq<WrrEntryV>)
    requires
        states.len() >= 1,
    ensures
        0 <= argmax_current(states) < states.len(),
        forall|j: int|
            0 <= j < states.len() ==> (#[trigger] states[j].current)
                <= states[argmax_current(states)].current,
    decreases states.len(),
{
    if states.len() > 1 {
        lemma_argmax_current(states.drop_last());
        let b = argmax_current(states.drop_last());
        assert forall|j: int|
            0 <= j < states.len() implies (#[trigger] states[j].current)
                <= states[argmax_current(states)].current by {
            if j < states.len() - 1 {
                assert(states.drop_last()[j] == states[j]);
                assert(states.drop_last()[b] == states[b]);
            }
        }
    }
}

/// The concrete account picked within the winning identity: the heaviest
/// candidate of that identity, ties broken toward the greater identifier.
pub open spec fn best_candidate(cands: Seq<CandidateV>, id: Seq<char>) -> Option<CandidateV>
    decreases cands.len(),
{
    if cands.len() == 0 {
        None
    } else {
        let rest = best_candidate(cands.drop_last(), id);
        let c = cands.last();
        if c.identity != id {
            rest
        } else {
            match rest {
                None => Some(c),
                Some(b) => if c.weight > b.weight || (c.weight == b.weight && crate::order::lex_lt(
                    b.selection.account_id,
                    c.selection.account_id,
                )) {
                    Some(c)
                } else {
                    Some(b)
                },
            }
        }
    }
}

/// One selection step: prune cooldowns, weigh the eligible accounts,
/// collapse them into identities, run one smooth weighted round-robin round
/// (all counters rise by their weight, the leader wins and is charged the
/// whole sum), and pick the heaviest concrete account of the winning
/// identity. With nothing eligible, nothing is selected and the round-robin
/// state is emptied.
pub open spec fn next_account_model(
    st: AccountSchedulerV,
    now: i64,
    accounts: Seq<StoredAccountV>,
    tel: Seq<RateLimitRecordV>,
) -> (AccountSchedulerV, Option<AccountSelectionV>) {
    let cds = prune_cooldowns_model(st.cooldowns, now);
    let cands = candidates_model(accounts, tel, cds, now);
    let totals = totals_model(cands);
    if totals.len() == 0 {
        (
            AccountSchedulerV { cooldowns: cds, weights: new_states_model(st.weights, totals) },
            None,
        )
    } else {
        let round = swrr_round(st.weights, totals);
        let sel = best_candidate(cands, totals[round.1].identity);
        (
            AccountSchedulerV { cooldowns: cds, weights: round.0 },
            match sel {
                Some(c) => Some(c.selection),
                None => None,
            },
        )
    }
}

/// Whether a cooldown in the vector blocks the account at `now`.
fn cooldown_blocked_exec(cds: &Vec<CooldownEntry>, id: &str, now: i64) -> (r: bool)
    ensures
        r == cooldown_blocked(Seq::new(cds@.len(), |i: int| cds@[i]@), id@, now),
{
    let ghost cv = Seq::new(cds@.len(), |i: int| cds@[i]@);
    let mut i: usize = 0;
    while i < cds.len()
        invariant
            i <= cds@.len(),
            cv == Seq::new(cds@.len(), |i: int| cds@[i]@),
            forall|j: int|
                0 <= j < i ==> !((#[trigger] cv[j]).account_id == id@ && cv[j].resume_at > now),
        decreases cds@.len() - i,
    {
        if string_eq_str(&cds[i].account_id, id) && cds[i].resume_at > now {
            proof {
                assert(cv[i as int].account_id == id@ && cv[i as int].resume_at > now);
            }
            return true;
        }
        i = i + 1;
    }
    false
}

/// Finds the last telemetry record for the account, as an index.
fn find_telemetry_index(tel: &Vec<RateLimitRecord>, id: &str) -> (r: Option<usize>)
    ensures
        ({
            let tv = Seq::new(tel@.len(), |i: int| tel@[i]@);
            match r {
                Some(i) => i < tel@.len() && find_telemetry_last(tv, id@) == Some(i as int),
                None => find_telemetry_last(tv, id@) is None,
            }
        }),
{
    let ghost tv = Seq::new(tel@.len(), |i: int| tel@[i]@);
    let mut found: Option<usize> = None;
    let mut i: usize = 0;
    while i < tel.len()
        invariant
            i <= tel@.len(),
            tv == Seq::new(tel@.len(), |i: int| tel@[i]@),
            match found {
                Some(f) => f < i && find_telemetry_last(tv.take(i as int), id@) == Some(f as int),
                None => find_telemetry_last(tv.take(i as int), id@) is None,
            },
        decreases tel@.len() - i,
    {
        proof {
            assert(tv.take(i + 1).last() == tv[i as int]);
            assert(tv.take(i + 1).drop_last() =~= tv.take(i as int));
        }
        if string_eq_str(&tel[i].account_id, id) {
            found = Some(i);
        }
        i = i + 1;
    }
    proof {
        assert(tv.take(tel@.len() as int) =~= tv);
    }
    found
}

impl AccountScheduler {
    /// Drops cooldowns whose resume time has passed.
    fn prune_expired_cooldowns(&mut self, now: i64)
        ensures
            final(self)@.cooldowns == prune_cooldowns_model(old(self)@.cooldowns, now),
            final(self)@.weights == old(self)@.weights,
    {
        let ghost cds = old(self)@.cooldowns;
        let mut kept: Vec<CooldownEntry> = Vec::new();
        let n = self.cooldowns.len();
        let mut i: usize = 0;
        while i < n
            invariant
                i <= n,
                n == self.cooldowns@.len(),
                cds == Seq::new(self.cooldowns@.len(), |k: int| self.cooldowns@[k]@),
                Seq::new(kept@.len(), |k: int| kept@[k]@) =~= prune_cooldowns_model(
                    cds.take(i as int),
                    now,
                ),
            decreases n - i,
        {
            proof {
                assert(cds.take(i + 1).drop_last() =~= cds.take(i as int));
                assert(cds.take(i + 1).last() == cds[i as int]);
            }
            if self.cooldowns[i].resume_at > now {
                let e = CooldownEntry {
                    account_id: self.cooldowns[i].account_id.clone(),
                    resume_at: self.cooldowns[i].resume_at,
                };
                kept.push(e);
            }
            proof {
                assert(Seq::new(kept@.len(), |k: int| kept@[k]@) =~= prune_cooldowns_model(
                    cds.take(i + 1),
                    now,
                ));
            }
            i = i + 1;
        }
        proof {
            assert(cds.take(n as int) =~= cds);
        }
        self.cooldowns = kept;
    }

    /// Picks the next account by smooth weighted round-robin, or nothing
    /// when no catalogued account is eligible.
    pub fn next_account(
        &mut self,
        now: i64,
        accounts: &Vec<StoredAccount>,
        telemetry: &Vec<RateLimitRecord>,
    ) -> (r: Option<AccountSelection>)
        ensures
            (final(self)@, opt_selection_view(r)) == next_account_model(
                old(self)@,
                now,
                Seq::new(accounts@.len(), |i: int| accounts@[i]@),
                Seq::new(telemetry@.len(), |i: int| telemetry@[i]@),
            ),
    {
        let ghost avs = Seq::new(accounts@.len(), |i: int| accounts@[i]@);
        let ghost tv = Seq::new(telemetry@.len(), |i: int| telemetry@[i]@);
        let ghost weights0 = old(self)@.weights;
        self.prune_expired_cooldowns(now);
        let ghost cds = self@.cooldowns;

        // Weigh the eligible accounts.
        let mut cands: Vec<Candidate> = Vec::new();
        let mut i: usize = 0;
        while i < accounts.len()
            invariant
                i <= accounts@.len(),
                avs == Seq::new(accounts@.len(), |i: int| accounts@[i]@),
                tv == Seq::new(telemetry@.len(), |i: int| telemetry@[i]@),
                cds == Seq::new(self.cooldowns@.len(), |k: int| self.cooldowns@[k]@),
                Seq::new(cands@.len(), |k: int| cands@[k]@) =~= candidates_model(
                    avs.take(i as int),
                    tv,
                    cds,
                    now,
                ),
            decreases accounts@.len() - i,
        {
            proof {
                assert(avs.take(i + 1).drop_last() =~= avs.take(i as int));
                assert(avs.take(i + 1).last() == avs[i as int]);
            }
            let account = &accounts[i];
            if has_credentials_exec(account) && !cooldown_blocked_exec(
                &self.cooldowns,
                account.id.as_str(),
                now,
            ) {
                let tel_idx = find_telemetry_index(telemetry, account.id.as_str());
                let weight: i64 = match tel_idx {
                    Some(j) => {
                        let w = compute_weight(&telemetry[j], now);
                        if w >= 1 {
                            w
                        } else {
                            1
                        }
                    },
                    None => 10_000_000,
                };
                let snapshot: Option<RateLimitRecord> = match tel_idx {
                    Some(j) => Some(telemetry[j].clone()),
                    None => None,
                };
                let plan: Option<String> = match &account.tokens {
                    Some(t) => clone_opt_string(&t.plan_type),
                    None => None,
                };
                let c = Candidate {
                    selection: AccountSelection {
                        account_id: account.id.clone(),
                        label: clone_opt_string(&account.label),
                        plan: plan,
                        snapshot: snapshot,
                    },
                    weight: weight,
                    identity: slot_identity(account),
                };
                proof {
                    assert(c@ == candidate_of(avs[i as int], tv, now));
                }
                cands.push(c);
            }
            proof {
                assert(Seq::new(cands@.len(), |k: int| cands@[k]@) =~= candidates_model(
                    avs.take(i + 1),
                    tv,
                    cds,
                    now,
                ));
            }
            i = i + 1;
        }
        proof {
            assert(avs.take(accounts@.len() as int) =~= avs);
        }
        let ghost candsv = candidates_model(avs, tv, cds, now);

        // Sum weights per identity.
        let mut totals: Vec<TotalEntry> = Vec::new();
        let mut k: usize = 0;
        while k < cands.len()
            invariant
                k <= cands@.len(),
                candsv == Seq::new(cands@.len(), |m: int| cands@[m]@),
                Seq::new(totals@.len(), |m: int| totals@[m]@) =~= totals_model(
                    candsv.take(k as int),
                ),
            decreases cands@.len() - k,
        {
            proof {
                assert(candsv.take(k + 1).drop_last() =~= candsv.take(k as int));
                assert(candsv.take(k + 1).last() == candsv[k as int]);
            }
            let ghost totv = Seq::new(totals@.len(), |m: int| totals@[m]@);
            let c = &cands[k];
            let mut found: Option<usize> = None;
            let mut j: usize = 0;
            loop
                invariant_except_break
                    found is None,
                invariant
                    j <= totals@.len(),
                    totv == Seq::new(totals@.len(), |m: int| totals@[m]@),
                    forall|m: int| 0 <= m < j ==> totv[m].identity != c@.identity,
                    c@ == candsv[k as int],
                    k < cands@.len(),
                    candsv == Seq::new(cands@.len(), |m: int| cands@[m]@),
                ensures
                    match found {
                        Some(f) => f < totals@.len() && find_total(totv, c@.identity) == Some(
                            f as int,
                        ),
                        None => find_total(totv, c@.identity) is None,
                    },
                    totv == Seq::new(totals@.len(), |m: int| totals@[m]@),
                decreases totals@.len() - j,
            {
                if j >= totals.len() {
                    proof {
                        lemma_find_total(totv, c@.identity);
                        if find_total(totv, c@.identity) is Some {
                            let f = find_total(totv, c@.identity)->Some_0;
                            assert(totv[f].identity != c@.identity);
                        }
                    }
                    break ;
                }
                if str_eq_str(totals[j].identity.as_str(), c.identity.as_str()) {
                    proof {
                        assert(totv[j as int] == totals@[j as int]@);
                        lemma_find_total(totv, c@.identity);
                        match find_total(totv, c@.identity) {
                            Some(f) => {
                                if f < j {
                                    assert(totv[f].identity != c@.identity);
                                }
                                if f > j {
                                    assert(totv[j as int].identity != c@.identity);
                                }
                            },
                            None => {
                                assert(totv[j as int].identity != c@.identity);
                            },
                        }
                    }
                    found = Some(j);
                    break ;
                }
                j = j + 1;
            }
            match found {
                Some(f) => {
                    let summed = sat_add_i64(totals[f].total, c.weight);
                    let upd = TotalEntry { identity: totals[f].identity.clone(), total: summed };
                    crate::scheduler::set_total(&mut totals, f, upd);
                    proof {
                        lemma_find_total(totv, c@.identity);
                        assert(totv[f as int].identity == c@.identity);
                        assert(Seq::new(totals@.len(), |m: int| totals@[m]@) =~= totv.update(
                            f as int,
                            TotalV {
                                identity: c@.identity,
                                total: spec_sat_add_i64(totv[f as int].total, c@.weight),
                            },
                        ));
                        assert(Seq::new(totals@.len(), |m: int| totals@[m]@) =~= totals_model(
                            candsv.take(k + 1),
                        ));
                    }
                },
                None => {
                    totals.push(
                        TotalEntry { identity: c.identity.clone(), total: c.weight },
                    );
                    proof {
                        assert(Seq::new(totals@.len(), |m: int| totals@[m]@) =~= totals_model(
                            candsv.take(k + 1),
                        ));
                    }
                },
            }
            k = k + 1;
        }
        proof {
            assert(candsv.take(cands@.len() as int) =~= candsv);
        }
        let ghost totalsv = totals_model(candsv);

        // One round-robin round: rebuild the per-identity states, counters
        // raised by their weights.
        let mut states: Vec<WrrEntry> = Vec::new();
        let mut m: usize = 0;
        while m < totals.len()
            invariant
                m <= totals@.len(),
                totalsv == Seq::new(totals@.len(), |i: int| totals@[i]@),
                weights0 == Seq::new(self.weights@.len(), |i: int| self.weights@[i]@),
                states@.len() == m,
                forall|i: int|
                    0 <= i < m ==> states@[i]@ == new_states_model(weights0, totalsv)[i],
            decreases totals@.len() - m,
        {
            let t = &totals[m];
            let mut cur: i64 = 0;
            let mut j: usize = 0;
            let ghost wv = weights0;
            loop
                invariant_except_break
                    cur == 0,
                invariant
                    j <= self.weights@.len(),
                    wv == Seq::new(self.weights@.len(), |i: int| self.weights@[i]@),
                    forall|p: int| 0 <= p < j ==> wv[p].identity != t@.identity,
                    t@ == totalsv[m as int],
                    m < totals@.len(),
                    totalsv == Seq::new(totals@.len(), |i: int| totals@[i]@),
                ensures
                    cur == old_current(wv, t@.identity),
                    wv == Seq::new(self.weights@.len(), |i: int| self.weights@[i]@),
                decreases self.weights@.len() - j,
            {
                if j >= self.weights.len() {
                    proof {
                        lemma_find_wrr(wv, t@.identity);
                        if find_wrr(wv, t@.identity) is Some {
                            let f = find_wrr(wv, t@.identity)->Some_0;
                            assert(wv[f].identity != t@.identity);
                        }
                    }
                    break ;
                }
                if str_eq_str(self.weights[j].identity.as_str(), t.identity.as_str()) {
                    proof {
                        assert(wv[j as int] == self.weights@[j as int]@);
                        lemma_find_wrr(wv, t@.identity);
                        match find_wrr(wv, t@.identity) {
                            Some(f) => {
                                if f < j {
                                    assert(wv[f].identity != t@.identity);
                                }
                                if f > j {
                                    assert(wv[j as int].identity != t@.identity);
                                }
                            },
                            None => {
                                assert(wv[j as int].identity != t@.identity);
                            },
                        }
                    }
                    cur = self.weights[j].current;
                    break ;
                }
                j = j + 1;
            }
            let e = WrrEntry {
                identity: t.identity.clone(),
                weight: t.total,
                current: sat_add_i64(cur, t.total),
            };
            states.push(e);
            m = m + 1;
        }

        // The sum of all weights.
        let mut total_w: i64 = 0;
        let mut s: usize = 0;
        while s < totals.len()
            invariant
                s <= totals@.len(),
                totalsv == Seq::new(totals@.len(), |i: int| totals@[i]@),
                total_w == sum_totals(totalsv.take(s as int)),
            decreases totals@.len() - s,
        {
            proof {
                assert(totalsv.take(s + 1).drop_last() =~= totalsv.take(s as int));
                assert(totalsv.take(s + 1).last() == totalsv[s as int]);
            }
            total_w = sat_add_i64(total_w, totals[s].total);
            s = s + 1;
        }
        proof {
            assert(totalsv.take(totals@.len() as int) =~= totalsv);
        }

        if totals.len() == 0 {
            self.weights = states;
            proof {
                assert(Seq::new(self.weights@.len(), |i: int| self.weights@[i]@)
                    =~= new_states_model(weights0, totalsv));
                assert(final(self)@ == next_account_model(old(self)@, now, avs, tv).0);
            }
            return None;
        }

        // The round winner: the leading counter, earliest on a tie.
        let ghost statesv = new_states_model(weights0, totalsv);
        proof {
            assert(Seq::new(states@.len(), |i: int| states@[i]@) =~= statesv);
        }
        let mut best: usize = 0;
        let mut b: usize = 1;
        while b < states.len()
            invariant
                1 <= b <= states@.len(),
                best < b,
                states@.len() == totalsv.len(),
                statesv == Seq::new(states@.len(), |i: int| states@[i]@),
                best == argmax_current(statesv.take(b as int)),
            decreases states@.len() - b,
        {
            proof {
                assert(statesv.take(b + 1).drop_last() =~= statesv.take(b as int));
                assert(statesv.take(b + 1).last() == statesv[b as int]);
                lemma_argmax_current(statesv.take(b as int));
            }
            if states[b].current > states[best].current {
                best = b;
            }
            b = b + 1;
        }
        proof {
            assert(statesv.take(states@.len() as int) =~= statesv);
            lemma_argmax_current(statesv);
        }

        // Charge the winner the whole sum.
        let charged = WrrEntry {
            identity: states[best].identity.clone(),
            weight: states[best].weight,
            current: sat_sub_i64(states[best].current, total_w),
        };
        crate::scheduler::set_state(&mut states, best, charged);
        self.weights = states;

        // Pick the heaviest concrete account of the winning identity.
        let winner_identity = totals[best].identity.clone();
        let ghost win_id = totalsv[best as int].identity;
        let mut pick: Option<usize> = None;
        let mut p: usize = 0;
        while p < cands.len()
            invariant
                p <= cands@.len(),
                candsv == Seq::new(cands@.len(), |m: int| cands@[m]@),
                winner_identity@ == win_id,
                match pick {
                    Some(pi) => pi < p && best_candidate(candsv.take(p as int), win_id)
                        == Some(candsv[pi as int]),
                    None => best_candidate(candsv.take(p as int), win_id) is None,
                },
            decreases cands@.len() - p,
        {
            proof {
                assert(candsv.take(p + 1).drop_last() =~= candsv.take(p as int));
                assert(candsv.take(p + 1).last() == candsv[p as int]);
            }
            if str_eq_str(cands[p].identity.as_str(), winner_identity.as_str()) {
                match pick {
                    None => {
                        pick = Some(p);
                    },
                    Some(pi) => {
                        let heavier = cands[p].weight > cands[pi].weight;
                        let tie = cands[p].weight == cands[pi].weight;
                        let id_cmp = crate::order::str_key_cmp(
                            cands[pi].selection.account_id.as_str(),
                            cands[p].selection.account_id.as_str(),
                            false,
                        );
                        if heavier || (tie && id_cmp < 0) {
                            pick = Some(p);
                        }
                    },
                }
            }
            p = p + 1;
        }
        proof {
            assert(candsv.take(cands@.len() as int) =~= candsv);
        }
        let r: Option<AccountSelection> = match pick {
            Some(pi) => {
                let sel = &cands[pi].selection;
                Some(
                    AccountSelection {
                        account_id: sel.account_id.clone(),
                        label: clone_opt_string(&sel.label),
                        plan: clone_opt_string(&sel.plan),
                        snapshot: match &sel.snapshot {
                            Some(rec) => Some(rec.clone()),
                            None => None,
                        },
                    },
                )
            },
            None => None,
        };
        proof {
            assert(final(self)@.cooldowns =~= next_account_model(old(self)@, now, avs, tv).0
                .cooldowns);
            assert(final(self)@.weights =~= next_account_model(old(self)@, now, avs, tv).0.weights);
            assert(opt_selection_view(r) == next_account_model(old(self)@, now, avs, tv).1);
        }
        r
    }
}

/// Elementary facts about one- and two-element sequences.
proof fn lemma_pair_facts<A>(a: A, b: A)
    ensures
        (seq![a, b])[0] == a,
        (seq![a, b])[1] == b,
        (seq![a, b]).last() == b,
        (seq![a, b]).len() == 2,
        (seq![a, b]).drop_last() =~= seq![a],
        (seq![a, b]).drop_first() =~= seq![b],
        (seq![a])[0] == a,
        (seq![a]).last() == a,
        (seq![a]).len() == 1,
        (seq![a]).drop_last() =~= Seq::<A>::empty(),
        (seq![a]).drop_first() =~= Seq::<A>::empty(),
{
}

/// Elementary facts about a three-element sequence.
proof fn lemma_triple_facts<A>(a: A, b: A, c: A)
    ensures
        (seq![a, b, c])[0] == a,
        (seq![a, b, c])[1] == b,
        (seq![a, b, c])[2] == c,
        (seq![a, b, c]).len() == 3,
        (seq![a, b, c]).drop_first() =~= seq![b, c],
{
}

/// Pruning keeps exactly the cooldowns that still block at `now`.
proof fn lemma_prune_keeps_blocking(s: Seq<CooldownEntryV>, id: Seq<char>, now: i64)
    ensures
        cooldown_blocked(prune_cooldowns_model(s, now), id, now) == cooldown_blocked(s, id, now),
    decreases s.len(),
{
    if s.len() > 0 {
        lemma_prune_keeps_blocking(s.drop_last(), id, now);
        let rest = prune_cooldowns_model(s.drop_last(), now);
        let p = prune_cooldowns_model(s, now);
        if cooldown_blocked(s, id, now) {
            let i = choose|i: int|
                0 <= i < s.len() && s[i].account_id == id && s[i].resume_at > now;
            if i < s.len() - 1 {
                assert(s.drop_last()[i] == s[i]);
                assert(cooldown_blocked(s.drop_last(), id, now));
                assert(cooldown_blocked(rest, id, now));
                let j = choose|j: int|
                    0 <= j < rest.len() && rest[j].account_id == id && rest[j].resume_at > now;
                if s.last().resume_at > now {
                    assert(p == rest.push(s.last()));
                    assert(p[j] == rest[j]);
                } else {
                    assert(p == rest);
                }
                assert(cooldown_blocked(p, id, now));
            } else {
                assert(s.last().resume_at > now);
                assert(p == rest.push(s.last()));
                assert(p[p.len() - 1] == s.last());
                assert(cooldown_blocked(p, id, now));
            }
        }
        if cooldown_blocked(p, id, now) {
            let i = choose|i: int|
                0 <= i < p.len() && p[i].account_id == id && p[i].resume_at > now;
            if s.last().resume_at > now {
                assert(p == rest.push(s.last()));
                if i == p.len() - 1 {
                    assert(p[i] == s.last());
                    assert(s[s.len() - 1].account_id == id && s[s.len() - 1].resume_at > now);
                } else {
                    assert(p[i] == rest[i]);
                    assert(cooldown_blocked(rest, id, now));
                    assert(cooldown_blocked(s.drop_last(), id, now));
                    let j = choose|j: int|
                        0 <= j < s.drop_last().len() && s.drop_last()[j].account_id == id
                            && s.drop_last()[j].resume_at > now;
                    assert(s[j] == s.drop_last()[j]);
                }
            } else {
                assert(p == rest);
                assert(cooldown_blocked(rest, id, now));
                assert(cooldown_blocked(s.drop_last(), id, now));
                let j = choose|j: int|
                    0 <= j < s.drop_last().len() && s.drop_last()[j].account_id == id
                        && s.drop_last()[j].resume_at > now;
                assert(s[j] == s.drop_last()[j]);
            }
            assert(cooldown_blocked(s, id, now));
        }
    }
}

/// Every candidate is free of cooldowns.
proof fn lemma_candidates_unblocked(
    accounts: Seq<StoredAccountV>,
    tel: Seq<RateLimitRecordV>,
    cds: Seq<CooldownEntryV>,
    now: i64,
)
    ensures
        forall|i: int|
            0 <= i < candidates_model(accounts, tel, cds, now).len() ==> !cooldown_blocked(
                cds,
                (#[trigger] candidates_model(accounts, tel, cds, now)[i]).selection.account_id,
                now,
            ),
    decreases accounts.len(),
{
    if accounts.len() > 0 {
        lemma_candidates_unblocked(accounts.drop_last(), tel, cds, now);
        let rest = candidates_model(accounts.drop_last(), tel, cds, now);
        let whole = candidates_model(accounts, tel, cds, now);
        assert forall|i: int|
            0 <= i < whole.len() implies !cooldown_blocked(
            cds,
            (#[trigger] whole[i]).selection.account_id,
            now,
        ) by {
            if i < rest.len() {
                assert(whole[i] == rest[i]);
            }
        }
    }
}

/// The picked candidate is one of the candidates.
proof fn lemma_best_candidate_member(cands: Seq<CandidateV>, id: Seq<char>)
    ensures
        match best_candidate(cands, id) {
            Some(c) => exists|i: int| 0 <= i < cands.len() && cands[i] == c,
            None => true,
        },
    decreases cands.len(),
{
    if cands.len() > 0 {
        lemma_best_candidate_member(cands.drop_last(), id);
        match best_candidate(cands, id) {
            Some(c) => {
                if c == cands.last() {
                    assert(cands[cands.len() - 1] == c);
                } else {
                    let i = choose|i: int|
                        0 <= i < cands.drop_last().len() && cands.drop_last()[i] == c;
                    assert(cands[i] == c);
                }
            },
            None => {},
        }
    }
}

/// Law: an account in cooldown is never selected. Whatever the catalogue
/// and telemetry, a selection's account has no cooldown entry with a resume
/// time still in the future; after the resume time passes, the entry stops
/// blocking, so the account becomes selectable again.
pub proof fn lemma_cooldown_respected(
    st: AccountSchedulerV,
    now: i64,
    accounts: Seq<StoredAccountV>,
    tel: Seq<RateLimitRecordV>,
)
    ensures
        match next_account_model(st, now, accounts, tel).1 {
            Some(sel) => !cooldown_blocked(st.cooldowns, sel.account_id, now),
            None => true,
        },
{
    let cds = prune_cooldowns_model(st.cooldowns, now);
    let cands = candidates_model(accounts, tel, cds, now);
    let totals = totals_model(cands);
    match next_account_model(st, now, accounts, tel).1 {
        Some(sel) => {
            let w = argmax_current(new_states_model(st.weights, totals));
            lemma_best_candidate_member(cands, totals[w].identity);
            let c = best_candidate(cands, totals[w].identity)->Some_0;
            let i = choose|i: int| 0 <= i < cands.len() && cands[i] == c;
            lemma_candidates_unblocked(accounts, tel, cds, now);
            assert(!cooldown_blocked(cds, cands[i].selection.account_id, now));
            lemma_prune_keeps_blocking(st.cooldowns, sel.account_id, now);
        },
        None => {},
    }
}

/// The saturating sum of the weights of the candidates with an identity.
pub open spec fn identity_weight_sum(cands: Seq<CandidateV>, id: Seq<char>) -> i64
    decreases cands.len(),
{
    if cands.len() == 0 {
        0
    } else {
        let rest = identity_weight_sum(cands.drop_last(), id);
        if cands.last().identity == id {
            spec_sat_add_i64(rest, cands.last().weight)
        } else {
            rest
        }
    }
}

/// Whether some total carries the identity.
pub open spec fn has_identity(totals: Seq<TotalV>, id: Seq<char>) -> bool {
    exists|t: int| 0 <= t < totals.len() && (#[trigger] totals[t]).identity == id
}

/// Law: accounts sharing a scheduling identity are never independently
/// weighted. The per-identity totals hold each identity exactly once, every
/// candidate's identity is represented, and an identity's entry carries the
/// combined weight of all its candidates — that single entry is what
/// competes in the round-robin round.
pub proof fn lemma_totals_collapse(cands: Seq<CandidateV>)
    ensures
        forall|i: int, j: int|
            0 <= i < j < totals_model(cands).len() ==> (#[trigger] totals_model(
                cands,
            )[i]).identity != (#[trigger] totals_model(cands)[j]).identity,
        forall|i: int|
            0 <= i < totals_model(cands).len() ==> (#[trigger] totals_model(cands)[i]).total
                == identity_weight_sum(cands, totals_model(cands)[i].identity),
        forall|j: int|
            0 <= j < cands.len() ==> has_identity(
                totals_model(cands),
                (#[trigger] cands[j]).identity,
            ),
    decreases cands.len(),
{
    if cands.len() > 0 {
        lemma_totals_collapse(cands.drop_last());
        let prev = totals_model(cands.drop_last());
        let c = cands.last();
        let cur = totals_model(cands);
        lemma_find_total(prev, c.identity);
        assert forall|j: int|
            0 <= j < cands.drop_last().len() implies cands.drop_last()[j] == cands[j] by {}
        match find_total(prev, c.identity) {
            Some(f) => {
                assert(cur.len() == prev.len());
                assert forall|i: int| 0 <= i < cur.len() implies cur[i].identity
                    == prev[i].identity by {}
                assert forall|i: int, j: int|
                    0 <= i < j < cur.len() implies (#[trigger] cur[i]).identity != (
                #[trigger] cur[j]).identity by {
                    assert(cur[i].identity == prev[i].identity);
                    assert(cur[j].identity == prev[j].identity);
                }
                assert forall|i: int|
                    0 <= i < cur.len() implies (#[trigger] cur[i]).total == identity_weight_sum(
                    cands,
                    cur[i].identity,
                ) by {
                    if i == f {
                        assert(cur[i].total == spec_sat_add_i64(prev[f].total, c.weight));
                        assert(prev[f].total == identity_weight_sum(
                            cands.drop_last(),
                            c.identity,
                        ));
                    } else {
                        assert(cur[i] == prev[i]);
                        assert(prev[i].identity != c.identity);
                        assert(identity_weight_sum(cands, cur[i].identity) == identity_weight_sum(
                            cands.drop_last(),
                            cur[i].identity,
                        ));
                    }
                }
                assert forall|j: int|
                    0 <= j < cands.len() implies has_identity(
                    cur,
                    (#[trigger] cands[j]).identity,
                ) by {
                    if j < cands.len() - 1 {
                        assert(has_identity(prev, cands[j].identity));
                        let t = choose|t: int|
                            0 <= t < prev.len() && (#[trigger] prev[t]).identity
                                == cands[j].identity;
                        assert(cur[t].identity == cands[j].identity);
                    } else {
                        assert(cur[f].identity == c.identity);
                    }
                }
            },
            None => {
                assert(cur.len() == prev.len() + 1);
                assert forall|i: int| 0 <= i < prev.len() implies cur[i] == prev[i] by {}
                assert(cur[cur.len() - 1].identity == c.identity);
                assert forall|i: int, j: int|
                    0 <= i < j < cur.len() implies (#[trigger] cur[i]).identity != (
                #[trigger] cur[j]).identity by {
                    if j < cur.len() - 1 {
                        assert(cur[i] == prev[i]);
                        assert(cur[j] == prev[j]);
                    } else {
                        assert(cur[i] == prev[i]);
                        assert(prev[i].identity != c.identity);
                    }
                }
                assert forall|j: int|
                    0 <= j < cands.drop_last().len() implies (
                #[trigger] cands.drop_last()[j]).identity != c.identity by {
                    if cands[j].identity == c.identity {
                        assert(has_identity(prev, cands[j].identity));
                        let t = choose|t: int|
                            0 <= t < prev.len() && (#[trigger] prev[t]).identity
                                == cands[j].identity;
                        assert(prev[t].identity != c.identity);
                    }
                }
                lemma_no_identity_sum_zero(cands.drop_last(), c.identity);
                assert forall|i: int|
                    0 <= i < cur.len() implies (#[trigger] cur[i]).total == identity_weight_sum(
                    cands,
                    cur[i].identity,
                ) by {
                    if i < cur.len() - 1 {
                        assert(cur[i] == prev[i]);
                        assert(prev[i].identity != c.identity);
                        assert(identity_weight_sum(cands, cur[i].identity) == identity_weight_sum(
                            cands.drop_last(),
                            cur[i].identity,
                        ));
                    } else {
                        assert(cur[i].identity == c.identity);
                    }
                }
                assert forall|j: int|
                    0 <= j < cands.len() implies has_identity(
                    cur,
                    (#[trigger] cands[j]).identity,
                ) by {
                    if j < cands.len() - 1 {
                        assert(has_identity(prev, cands[j].identity));
                        let t = choose|t: int|
                            0 <= t < prev.len() && (#[trigger] prev[t]).identity
                                == cands[j].identity;
                        assert(cur[t].identity == cands[j].identity);
                    } else {
                        assert(cur[cur.len() - 1].identity == c.identity);
                    }
                }
            },
        }
    }
}

/// An identity no candidate carries sums to zero.
proof fn lemma_no_identity_sum_zero(cands: Seq<CandidateV>, id: Seq<char>)
    requires
        forall|j: int| 0 <= j < cands.len() ==> (#[trigger] cands[j]).identity != id,
    ensures
        identity_weight_sum(cands, id) == 0,
    decreases cands.len(),
{
    if cands.len() > 0 {
        assert(cands[cands.len() - 1].identity != id);
        assert forall|j: int|
            0 <= j < cands.drop_last().len() implies (#[trigger] cands.drop_last()[j]).identity
            != id by {
            assert(cands.drop_last()[j] == cands[j]);
        }
        lemma_no_identity_sum_zero(cands.drop_last(), id);
    }
}

/// One smooth weighted round-robin round over fixed per-identity totals:
/// the raised counters, the winning index, and the state after charging the
/// winner.
pub open spec fn swrr_round(states: Seq<WrrEntryV>, totals: Seq<TotalV>) -> (Seq<WrrEntryV>, int) {
    let raised = new_states_model(states, totals);
    let w = argmax_current(raised);
    (
        raised.update(
            w,
            WrrEntryV {
                current: spec_sat_sub_i64(raised[w].current, sum_totals(totals)),
                ..raised[w]
            },
        ),
        w,
    )
}

/// The winning indices of `n` consecutive rounds over fixed totals.
pub open spec fn swrr_picks(states: Seq<WrrEntryV>, totals: Seq<TotalV>, n: nat) -> Seq<int>
    decreases n,
{
    if n == 0 {
        Seq::<int>::empty()
    } else {
        let r = swrr_round(states, totals);
        seq![r.1] + swrr_picks(r.0, totals, (n - 1) as nat)
    }
}

/// States that raise to the same counters behave the same.
proof fn lemma_swrr_picks_congruent(
    s1: Seq<WrrEntryV>,
    s2: Seq<WrrEntryV>,
    totals: Seq<TotalV>,
    n: nat,
)
    requires
        new_states_model(s1, totals) == new_states_model(s2, totals),
    ensures
        swrr_picks(s1, totals, n) == swrr_picks(s2, totals, n),
    decreases n,
{
    if n > 0 {
        let r1 = swrr_round(s1, totals);
        let r2 = swrr_round(s2, totals);
        assert(r1 == r2);
        lemma_swrr_picks_congruent(r1.0, r1.0, totals, (n - 1) as nat);
    }
}

/// How many of the first picks hit the given index.
pub open spec fn count_picks(picks: Seq<int>, x: int) -> int
    decreases picks.len(),
{
    if picks.len() == 0 {
        0
    } else {
        (if picks[0] == x {
            1int
        } else {
            0int
        }) + count_picks(picks.drop_first(), x)
    }
}

/// The alternating pick pattern of two equal competitors.
pub open spec fn alternating_picks(n: nat) -> Seq<int>
    decreases n,
{
    if n == 0 {
        Seq::<int>::empty()
    } else {
        seq![0int, 1int] + alternating_picks((n - 1) as nat)
    }
}

proof fn lemma_count_concat(a: Seq<int>, b: Seq<int>, x: int)
    ensures
        count_picks(a + b, x) == count_picks(a, x) + count_picks(b, x),
    decreases a.len(),
{
    if a.len() == 0 {
        assert(a + b =~= b);
    } else {
        assert((a + b).drop_first() =~= a.drop_first() + b);
        assert((a + b)[0] == a[0]);
        lemma_count_concat(a.drop_first(), b, x);
    }
}

/// The pick counts of the small literal patterns.
proof fn lemma_count_small()
    ensures
        count_picks(seq![0int, 1int], 0) == 1,
        count_picks(seq![0int, 1int], 1) == 1,
        count_picks(seq![0int, 1int, 0int], 0) == 2,
        count_picks(seq![0int, 1int, 0int], 1) == 1,
{
    lemma_pair_facts(0int, 1int);
    lemma_pair_facts(1int, 0int);
    lemma_triple_facts(0int, 1int, 0int);
    assert(count_picks(Seq::<int>::empty(), 0) == 0);
    assert(count_picks(Seq::<int>::empty(), 1) == 0);
    assert(count_picks(seq![0int], 0) == 1 + count_picks(Seq::<int>::empty(), 0));
    assert(count_picks(seq![0int], 1) == 0 + count_picks(Seq::<int>::empty(), 1));
    assert(count_picks(seq![1int], 0) == 0 + count_picks(Seq::<int>::empty(), 0));
    assert(count_picks(seq![1int], 1) == 1 + count_picks(Seq::<int>::empty(), 1));
    assert(count_picks(seq![1int, 0int], 0) == 0 + count_picks(seq![0int], 0));
    assert(count_picks(seq![1int, 0int], 1) == 1 + count_picks(seq![0int], 1));
    assert(count_picks(seq![0int, 1int], 0) == 1 + count_picks(seq![1int], 0));
    assert(count_picks(seq![0int, 1int], 1) == 0 + count_picks(seq![1int], 1));
    assert(count_picks(seq![0int, 1int, 0int], 0) == 1 + count_picks(seq![1int, 0int], 0));
    assert(count_picks(seq![0int, 1int, 0int], 1) == 0 + count_picks(seq![1int, 0int], 1));
}

/// The saturating sum of a two-element totals list.
proof fn lemma_sum_pair(a: TotalV, b: TotalV)
    ensures
        sum_totals(seq![a, b]) == spec_sat_add_i64(spec_sat_add_i64(0, a.total), b.total),
{
    lemma_pair_facts(a, b);
    assert(sum_totals(Seq::<TotalV>::empty()) == 0);
    assert(sum_totals(seq![a]) == spec_sat_add_i64(sum_totals(Seq::<TotalV>::empty()), a.total));
    assert(sum_totals(seq![a, b]) == spec_sat_add_i64(sum_totals(seq![a]), b.total));
}

/// The winner among two counters: the later index only on a strict lead.
proof fn lemma_argmax_pair(a: WrrEntryV, b: WrrEntryV)
    ensures
        argmax_current(seq![a, b]) == (if b.current > a.current {
            1int
        } else {
            0int
        }),
{
    lemma_pair_facts(a, b);
    assert(argmax_current(seq![a]) == 0);
}

/// Lookup in a two-element state list.
proof fn lemma_find_wrr_pair(a: WrrEntryV, b: WrrEntryV, id: Seq<char>)
    ensures
        find_wrr(seq![a, b], id) == (if a.identity == id {
            Some(0int)
        } else if b.identity == id {
            Some(1int)
        } else {
            None::<int>
        }),
{
    lemma_pair_facts(a, b);
    lemma_pair_facts(b, a);
    assert(find_wrr(Seq::<WrrEntryV>::empty(), id) is None);
    assert(find_wrr(seq![b], id) == (if b.identity == id {
        Some(0int)
    } else {
        None::<int>
    }));
}

proof fn lemma_alternating_counts(n: nat)
    ensures
        alternating_picks(n).len() == 2 * n,
        count_picks(alternating_picks(n), 0) == n,
        count_picks(alternating_picks(n), 1) == n,
    decreases n,
{
    if n > 0 {
        lemma_alternating_counts((n - 1) as nat);
        lemma_count_concat(seq![0int, 1int], alternating_picks((n - 1) as nat), 0);
        lemma_count_concat(seq![0int, 1int], alternating_picks((n - 1) as nat), 1);
        lemma_count_small();
    }
}

/// Law: two equally weighted identities alternate. Starting from fresh
/// round-robin state, 2N consecutive rounds with no intervening outcomes
/// pick each identity exactly N times, strictly alternating.
pub proof fn lemma_equal_weights_alternate(ida: Seq<char>, idb: Seq<char>, w: i64, n: nat)
    requires
        ida != idb,
        1 <= w <= 0x1000_0000_0000,
    ensures
        swrr_picks(
            Seq::<WrrEntryV>::empty(),
            seq![TotalV { identity: ida, total: w }, TotalV { identity: idb, total: w }],
            2 * n,
        ) == alternating_picks(n),
        count_picks(alternating_picks(n), 0) == n,
        count_picks(alternating_picks(n), 1) == n,
    decreases n,
{
    lemma_alternating_counts(n);
    let ta = TotalV { identity: ida, total: w };
    let tb = TotalV { identity: idb, total: w };
    let totals = seq![ta, tb];
    let empty = Seq::<WrrEntryV>::empty();
    if n == 0 {
        assert(swrr_picks(empty, totals, 0) =~= alternating_picks(0));
    } else {
        lemma_pair_facts(ta, tb);
        lemma_sum_pair(ta, tb);
        let tw = sum_totals(totals);
        assert(tw == w + w);
        assert(find_wrr(empty, ida) is None);
        assert(find_wrr(empty, idb) is None);
        // Round one: both counters rise to w; the first index wins the tie.
        let raised1 = new_states_model(empty, totals);
        assert(raised1.len() == 2);
        assert(raised1[0] == WrrEntryV { identity: ida, weight: w, current: w });
        assert(raised1[1] == WrrEntryV { identity: idb, weight: w, current: w });
        assert(raised1 =~= seq![raised1[0], raised1[1]]);
        lemma_argmax_pair(raised1[0], raised1[1]);
        assert(argmax_current(raised1) == 0);
        let r1 = swrr_round(empty, totals);
        assert(r1.1 == 0);
        let s1 = r1.0;
        assert(s1[0] == WrrEntryV { identity: ida, weight: w, current: (w - tw) as i64 });
        assert(s1[1] == WrrEntryV { identity: idb, weight: w, current: w });
        assert(s1 =~= seq![s1[0], s1[1]]);
        // Round two: the second identity leads and is charged back to zero.
        lemma_find_wrr_pair(s1[0], s1[1], ida);
        lemma_find_wrr_pair(s1[0], s1[1], idb);
        assert(find_wrr(s1, ida) == Some(0int));
        assert(find_wrr(s1, idb) == Some(1int));
        let raised2 = new_states_model(s1, totals);
        assert(raised2[0] == WrrEntryV { identity: ida, weight: w, current: 0 });
        assert(raised2[1] == WrrEntryV { identity: idb, weight: w, current: (w + w) as i64 });
        assert(raised2 =~= seq![raised2[0], raised2[1]]);
        lemma_argmax_pair(raised2[0], raised2[1]);
        assert(argmax_current(raised2) == 1);
        let r2 = swrr_round(s1, totals);
        assert(r2.1 == 1);
        let s2 = r2.0;
        assert(s2[0] == WrrEntryV { identity: ida, weight: w, current: 0 });
        assert(s2[1] == WrrEntryV { identity: idb, weight: w, current: 0 });
        assert(s2 =~= seq![s2[0], s2[1]]);
        // After two rounds the counters are back at zero.
        lemma_find_wrr_pair(s2[0], s2[1], ida);
        lemma_find_wrr_pair(s2[0], s2[1], idb);
        assert(new_states_model(s2, totals) =~= new_states_model(empty, totals));
        lemma_swrr_picks_congruent(s2, empty, totals, (2 * n - 2) as nat);
        lemma_equal_weights_alternate(ida, idb, w, (n - 1) as nat);
        assert(swrr_picks(empty, totals, 2 * n) == seq![r1.1] + swrr_picks(
            s1,
            totals,
            (2 * n - 1) as nat,
        ));
        assert(swrr_picks(s1, totals, (2 * n - 1) as nat) == seq![r2.1] + swrr_picks(
            s2,
            totals,
            (2 * n - 2) as nat,
        ));
        assert(swrr_picks(empty, totals, 2 * n) =~= alternating_picks(n)) by {
            assert(alternating_picks(n) == seq![0int, 1int] + alternating_picks((n - 1) as nat));
            assert(swrr_picks(s2, totals, (2 * n - 2) as nat) == swrr_picks(
                empty,
                totals,
                (2 * n - 2) as nat,
            ));
            assert(2 * ((n - 1) as nat) == (2 * n - 2) as nat);
            assert(swrr_picks(empty, totals, (2 * n - 2) as nat) == alternating_picks(
                (n - 1) as nat,
            ));
        }
    }
}

/// The two-to-one pick pattern of a double-weighted competitor.
pub open spec fn two_one_picks(n: nat) -> Seq<int>
    decreases n,
{
    if n == 0 {
        Seq::<int>::empty()
    } else {
        seq![0int, 1int, 0int] + two_one_picks((n - 1) as nat)
    }
}

proof fn lemma_two_one_counts(n: nat)
    ensures
        two_one_picks(n).len() == 3 * n,
        count_picks(two_one_picks(n), 0) == 2 * n,
        count_picks(two_one_picks(n), 1) == n,
    decreases n,
{
    if n > 0 {
        lemma_two_one_counts((n - 1) as nat);
        lemma_count_concat(seq![0int, 1int, 0int], two_one_picks((n - 1) as nat), 0);
        lemma_count_concat(seq![0int, 1int, 0int], two_one_picks((n - 1) as nat), 1);
        lemma_count_small();
    }
}

/// Law: selection frequency is proportional to weight. With one identity
/// carrying twice the weight of the other, every period of three rounds
/// picks the heavier identity exactly twice and the lighter one exactly
/// once -- a 2:1 ratio over any number of periods.
pub proof fn lemma_double_weight_two_to_one(ida: Seq<char>, idb: Seq<char>, w: i64, n: nat)
    requires
        ida != idb,
        1 <= w <= 0x1000_0000_0000,
    ensures
        swrr_picks(
            Seq::<WrrEntryV>::empty(),
            seq![
                TotalV { identity: ida, total: (2 * w) as i64 },
                TotalV { identity: idb, total: w },
            ],
            3 * n,
        ) == two_one_picks(n),
        count_picks(two_one_picks(n), 0) == 2 * n,
        count_picks(two_one_picks(n), 1) == n,
    decreases n,
{
    lemma_two_one_counts(n);
    let w2: i64 = (2 * w) as i64;
    let ta = TotalV { identity: ida, total: w2 };
    let tb = TotalV { identity: idb, total: w };
    let totals = seq![ta, tb];
    let empty = Seq::<WrrEntryV>::empty();
    if n == 0 {
        assert(swrr_picks(empty, totals, 0) =~= two_one_picks(0));
    } else {
        lemma_pair_facts(ta, tb);
        lemma_sum_pair(ta, tb);
        let tw = sum_totals(totals);
        assert(tw == w2 + w);
        assert(find_wrr(empty, ida) is None);
        assert(find_wrr(empty, idb) is None);
        // Round one: the heavy identity leads outright.
        let raised1 = new_states_model(empty, totals);
        assert(raised1[0] == WrrEntryV { identity: ida, weight: w2, current: w2 });
        assert(raised1[1] == WrrEntryV { identity: idb, weight: w, current: w });
        assert(raised1 =~= seq![raised1[0], raised1[1]]);
        lemma_argmax_pair(raised1[0], raised1[1]);
        assert(argmax_current(raised1) == 0);
        let r1 = swrr_round(empty, totals);
        assert(r1.1 == 0);
        let s1 = r1.0;
        assert(s1[0] == WrrEntryV { identity: ida, weight: w2, current: (0 - w) as i64 });
        assert(s1[1] == WrrEntryV { identity: idb, weight: w, current: w });
        assert(s1 =~= seq![s1[0], s1[1]]);
        // Round two: the light identity has caught up and wins.
        lemma_find_wrr_pair(s1[0], s1[1], ida);
        lemma_find_wrr_pair(s1[0], s1[1], idb);
        let raised2 = new_states_model(s1, totals);
        assert(raised2[0] == WrrEntryV { identity: ida, weight: w2, current: w });
        assert(raised2[1] == WrrEntryV { identity: idb, weight: w, current: (w + w) as i64 });
        assert(raised2 =~= seq![raised2[0], raised2[1]]);
        lemma_argmax_pair(raised2[0], raised2[1]);
        assert(argmax_current(raised2) == 1);
        let r2 = swrr_round(s1, totals);
        assert(r2.1 == 1);
        let s2 = r2.0;
        assert(s2[0] == WrrEntryV { identity: ida, weight: w2, current: w });
        assert(s2[1] == WrrEntryV { identity: idb, weight: w, current: (0 - w) as i64 });
        assert(s2 =~= seq![s2[0], s2[1]]);
        // Round three: the heavy identity wins again, back to zero.
        lemma_find_wrr_pair(s2[0], s2[1], ida);
        lemma_find_wrr_pair(s2[0], s2[1], idb);
        let raised3 = new_states_model(s2, totals);
        assert(raised3[0] == WrrEntryV { identity: ida, weight: w2, current: (w + w2) as i64 });
        assert(raised3[1] == WrrEntryV { identity: idb, weight: w, current: 0 });
        assert(raised3 =~= seq![raised3[0], raised3[1]]);
        lemma_argmax_pair(raised3[0], raised3[1]);
        assert(argmax_current(raised3) == 0);
        let r3 = swrr_round(s2, totals);
        assert(r3.1 == 0);
        let s3 = r3.0;
        assert(s3[0] == WrrEntryV { identity: ida, weight: w2, current: 0 });
        assert(s3[1] == WrrEntryV { identity: idb, weight: w, current: 0 });
        assert(s3 =~= seq![s3[0], s3[1]]);
        lemma_find_wrr_pair(s3[0], s3[1], ida);
        lemma_find_wrr_pair(s3[0], s3[1], idb);
        assert(new_states_model(s3, totals) =~= new_states_model(empty, totals));
        lemma_swrr_picks_congruent(s3, empty, totals, (3 * n - 3) as nat);
        lemma_double_weight_two_to_one(ida, idb, w, (n - 1) as nat);
        assert(swrr_picks(empty, totals, 3 * n) == seq![r1.1] + swrr_picks(
            s1,
            totals,
            (3 * n - 1) as nat,
        ));
        assert(swrr_picks(s1, totals, (3 * n - 1) as nat) == seq![r2.1] + swrr_picks(
            s2,
            totals,
            (3 * n - 2) as nat,
        ));
        assert(swrr_picks(s2, totals, (3 * n - 2) as nat) == seq![r3.1] + swrr_picks(
            s3,
            totals,
            (3 * n - 3) as nat,
        ));
        assert(swrr_picks(empty, totals, 3 * n) =~= two_one_picks(n)) by {
            assert(two_one_picks(n) == seq![0int, 1int, 0int] + two_one_picks((n - 1) as nat));
            assert(swrr_picks(s3, totals, (3 * n - 3) as nat) == swrr_picks(
                empty,
                totals,
                (3 * n - 3) as nat,
            ));
            assert(3 * ((n - 1) as nat) == (3 * n - 3) as nat);
            assert(swrr_picks(empty, totals, (3 * n - 3) as nat) == two_one_picks((n - 1) as nat));
        }
    }
}

/// Replaces one row of the totals vector.
fn set_total(totals: &mut Vec<TotalEntry>, i: usize, e: TotalEntry)
    requires
        i < old(totals)@.len(),
    ensures
        final(totals)@.len() == old(totals)@.len(),
        final(totals)@[i as int]@ == e@,
        forall|j: int|
            0 <= j < old(totals)@.len() && j != i ==> final(totals)@[j]@ == old(totals)@[j]@,
{
    totals.set(i, e);
}

/// Replaces one row of the states vector.
fn set_state(states: &mut Vec<WrrEntry>, i: usize, e: WrrEntry)
    requires
        i < old(states)@.len(),
    ensures
        final(states)@.len() == old(states)@.len(),
        final(states)@[i as int]@ == e@,
        forall|j: int|
            0 <= j < old(states)@.len() && j != i ==> final(states)@[j]@ == old(states)@[j]@,
{
    states.set(i, e);
}

} // verus!
