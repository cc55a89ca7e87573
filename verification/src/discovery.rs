//! Slot discovery: which of the directories seen under the discovery roots
//! count as slots, and the stable identifiers assigned to them.
//!
//! A directory counts when its first path component starts with the
//! case-insensitive slot prefix, it lies at most two levels below a root,
//! it holds a credential file, and no directory above it holds one (the
//! walk never descends below a credential file). Identifiers are slugs of
//! the sanitized path components; collisions gain `-2`, `-3`, ... suffixes
//! in visiting order.

use vstd::prelude::*;

use crate::slots::{clean_label_view, join_sep, path_join, path_join_exec, join_strings,
    relativize_path, relativize_path_view, resolve_entry_path, resolve_entry_path_view,
    slot_label_view, slot_label, strings_view, AuthFileData, AuthFileDataV, ScanEntry, ScanEntryV,
    SlotRegistry, SlotRegistryV, SlotRegistryEntry, SlotRegistryEntryV};
use crate::slug::{ensure_unique_id, ensure_unique_slot_id, make_slot_id_slug, make_slot_id_view,
    sanitize_component_view, seq_has_str, string_views};
use crate::order::{lemma_lex_lt_trans, lemma_lex_trichotomy, lemma_seq_insert_multiset, lex_le,
    lex_lt, str_key_cmp};
use crate::account::{opt_view, StoredAccount, StoredAccountV};
use crate::slots::AccountSlot;
use crate::slots::AccountSlotV;
use crate::text::{lower_char, lower_view, str_eq_str, to_lower_char, trim_str, trim_view};
use vstd::relations::sorted_by;
use vstd::string::StringExecFns;

verus! {

/// One discovered slot directory, before registry overrides: the assigned
/// identifier, the absolute path, the derived label, the credential file
/// content, and the path components it was found under.
#[derive(Debug)]
pub struct DiscoveredSlot {
    pub id: String,
    pub path: String,
    pub label: String,
    pub auth: AuthFileData,
    pub components: Vec<String>,
}

/// Mathematical view of a [`DiscoveredSlot`].
pub struct DiscoveredSlotV {
    pub id: Seq<char>,
    pub path: Seq<char>,
    pub label: Seq<char>,
    pub auth: AuthFileDataV,
    pub components: Seq<Seq<char>>,
}

impl View for DiscoveredSlot {
    type V = DiscoveredSlotV;

    open spec fn view(&self) -> DiscoveredSlotV {
        DiscoveredSlotV {
            id: self.id@,
            path: self.path@,
            label: self.label@,
            auth: self.auth@,
            components: strings_view(self.components@),
        }
    }
}

/// Whether a directory name starts with the slot prefix, case-insensitively.
pub open spec fn starts_with_slot(name: Seq<char>) -> bool {
    name.len() >= 4 && lower_char(name[0]) == 's' && lower_char(name[1]) == 'l' && lower_char(
        name[2],
    ) == 'o' && lower_char(name[3]) == 't'
}

/// Executable counterpart of [`starts_with_slot`].
pub fn name_starts_with_slot(name: &str) -> (r: bool)
    ensures
        r == starts_with_slot(name@),
{
    name.unicode_len() >= 4 && to_lower_char(name.get_char(0)) == 's' && to_lower_char(
        name.get_char(1),
    ) == 'l' && to_lower_char(name.get_char(2)) == 'o' && to_lower_char(name.get_char(3)) == 't'
}

/// The absolute path of a scanned directory.
pub open spec fn entry_path_view(e: ScanEntryV) -> Seq<char> {
    path_join(e.root, join_sep(e.components, seq!['/']))
}

/// Executable counterpart of [`entry_path_view`].
pub fn entry_path(e: &ScanEntry) -> (r: String)
    ensures
        r@ == entry_path_view(e@),
{
    let joined = join_strings(&e.components, "/");
    proof {
        reveal_strlit("/");
        assert("/"@ =~= seq!['/']);
    }
    path_join_exec(e.root.as_str(), joined.as_str())
}

/// Whether `a` names a directory strictly above `e` under the same root.
pub open spec fn is_proper_ancestor(a: ScanEntryV, e: ScanEntryV) -> bool {
    &&& a.root == e.root
    &&& 1 <= a.components.len() < e.components.len()
    &&& a.components == e.components.take(a.components.len() as int)
}

/// Whether some scanned directory above entry `k` holds a credential file
/// (readable or not); the walk never descends below one, so such an entry
/// is not a slot.
pub open spec fn blocked_above(entries: Seq<ScanEntryV>, k: int) -> bool {
    exists|j: int|
        0 <= j < entries.len() && is_proper_ancestor(entries[j], entries[k])
            && entries[j].has_auth_file
}

/// The discovery rule: first component slot-prefixed, at most two levels
/// below the root, a readable credential file present, and nothing above it
/// holding a credential file.
pub open spec fn is_discovered_slot(entries: Seq<ScanEntryV>, k: int) -> bool {
    let e = entries[k];
    &&& 1 <= e.components.len() <= 3
    &&& starts_with_slot(e.components[0])
    &&& e.has_auth_file
    &&& e.auth is Some
    &&& !blocked_above(entries, k)
}

/// The label a discovered slot carries: the trimmed email embedded in its
/// session token when present and nonempty, else one synthesized from the
/// path components.
pub open spec fn derive_label_view(auth: AuthFileDataV, comps: Seq<Seq<char>>) -> Seq<char> {
    match auth.tokens {
        Some(t) => match t.email {
            Some(e) => if trim_view(e).len() > 0 {
                trim_view(e)
            } else {
                slot_label_view(comps)
            },
            None => slot_label_view(comps),
        },
        None => slot_label_view(comps),
    }
}

/// Executable counterpart of [`derive_label_view`].
pub fn derive_label_from_auth(auth: &AuthFileData, components: &Vec<String>) -> (r: String)
    ensures
        r@ == derive_label_view(auth@, strings_view(components@)),
{
    match &auth.tokens {
        Some(t) => match &t.email {
            Some(e) => {
                let trimmed = trim_str(e.as_str());
                if trimmed.unicode_len() > 0 {
                    trimmed
                } else {
                    slot_label(components)
                }
            },
            None => slot_label(components),
        },
        None => slot_label(components),
    }
}

/// The discovery pass over the scan, from entry `k` on, with the pool of
/// identifiers already taken: the discovered slots in order, and the pool
/// grown by their identifiers.
pub open spec fn scan_model(entries: Seq<ScanEntryV>, k: int, pool: Seq<Seq<char>>) -> (
    Seq<DiscoveredSlotV>,
    Seq<Seq<char>>,
)
    decreases entries.len() - k,
{
    if k < 0 || k >= entries.len() {
        (Seq::<DiscoveredSlotV>::empty(), pool)
    } else if is_discovered_slot(entries, k) {
        let e = entries[k];
        let id = ensure_unique_id(make_slot_id_view(e.components), pool);
        let d = DiscoveredSlotV {
            id: id,
            path: entry_path_view(e),
            label: derive_label_view(e.auth->Some_0, e.components),
            auth: e.auth->Some_0,
            components: e.components,
        };
        let rest = scan_model(entries, k + 1, pool.push(id));
        (seq![d] + rest.0, rest.1)
    } else {
        scan_model(entries, k + 1, pool)
    }
}

/// Executable ancestor test.
fn is_proper_ancestor_exec(a: &ScanEntry, e: &ScanEntry) -> (r: bool)
    ensures
        r == is_proper_ancestor(a@, e@),
{
    if !str_eq_str(a.root.as_str(), e.root.as_str()) {
        return false;
    }
    let la = a.components.len();
    let le = e.components.len();
    if !(1 <= la && la < le) {
        return false;
    }
    let mut i: usize = 0;
    while i < la
        invariant
            i <= la,
            la == a@.components.len(),
            le == e@.components.len(),
            la < le,
            forall|j: int| 0 <= j < i ==> a@.components[j] == e@.components[j],
        decreases la - i,
    {
        if !str_eq_str(a.components[i].as_str(), e.components[i].as_str()) {
            proof {
                assert(a@.components[i as int] != e@.components[i as int]);
                assert(e@.components.take(la as int)[i as int] == e@.components[i as int]);
            }
            return false;
        }
        proof {
            assert(a@.components[i as int] == e@.components[i as int]);
        }
        i = i + 1;
    }
    proof {
        assert(a@.components =~= e@.components.take(la as int));
    }
    true
}

/// Whether some earlier-or-later listed directory above `e` holds a
/// credential file.
fn blocked_above_exec(entries: &Vec<ScanEntry>, k: usize) -> (r: bool)
    requires
        k < entries@.len(),
    ensures
        r == blocked_above(Seq::new(entries@.len(), |i: int| entries@[i]@), k as int),
{
    let ghost evs = Seq::new(entries@.len(), |i: int| entries@[i]@);
    let mut j: usize = 0;
    while j < entries.len()
        invariant
            j <= entries@.len(),
            k < entries@.len(),
            evs == Seq::new(entries@.len(), |i: int| entries@[i]@),
            forall|m: int|
                0 <= m < j ==> !(is_proper_ancestor(evs[m], evs[k as int])
                    && evs[m].has_auth_file),
        decreases entries@.len() - j,
    {
        if is_proper_ancestor_exec(&entries[j], &entries[k]) && entries[j].has_auth_file {
            proof {
                assert(is_proper_ancestor(evs[j as int], evs[k as int])
                    && evs[j as int].has_auth_file);
            }
            return true;
        }
        j = j + 1;
    }
    false
}

/// Copies a vector of strings, preserving the views.
pub fn clone_string_vec(v: &Vec<String>) -> (r: Vec<String>)
    ensures
        strings_view(r@) =~= strings_view(v@),
{
    let mut out: Vec<String> = Vec::new();
    let mut i: usize = 0;
    while i < v.len()
        invariant
            i <= v@.len(),
            out@.len() == i,
            forall|j: int| 0 <= j < i ==> out@[j]@ == v@[j]@,
        decreases v@.len() - i,
    {
        out.push(v[i].clone());
        i = i + 1;
    }
    out
}

/// Walks the scanned directories in order and returns the discovered slots,
/// assigning each an identifier not yet in the pool; the pool collects the
/// assigned identifiers.
pub fn scan_slot_dirs(entries: &Vec<ScanEntry>, pool: &mut Vec<String>) -> (r: Vec<DiscoveredSlot>)
    requires
        old(pool)@.len() + entries@.len() < usize::MAX - 2,
    ensures
        ({
            let m = scan_model(
                Seq::new(entries@.len(), |i: int| entries@[i]@),
                0,
                string_views(old(pool)@),
            );
            &&& Seq::new(r@.len(), |i: int| r@[i]@) =~= m.0
            &&& string_views(final(pool)@) =~= m.1
        }),
        final(pool)@.len() <= old(pool)@.len() + entries@.len(),
{
    let ghost evs = Seq::new(entries@.len(), |i: int| entries@[i]@);
    let ghost pool0 = string_views(pool@);
    let mut out: Vec<DiscoveredSlot> = Vec::new();
    let mut k: usize = 0;
    while k < entries.len()
        invariant
            k <= entries@.len(),
            evs == Seq::new(entries@.len(), |i: int| entries@[i]@),
            pool@.len() <= old(pool)@.len() + k,
            old(pool)@.len() + entries@.len() < usize::MAX - 2,
            scan_model(evs, 0, pool0).0 =~= Seq::new(out@.len(), |i: int| out@[i]@) + scan_model(
                evs,
                k as int,
                string_views(pool@),
            ).0,
            scan_model(evs, 0, pool0).1 =~= scan_model(evs, k as int, string_views(pool@)).1,
        decreases entries@.len() - k,
    {
        let ghost pool_k = string_views(pool@);
        let e = &entries[k];
        let mut eligible = e.components.len() >= 1 && e.components.len() <= 3;
        if eligible {
            eligible = name_starts_with_slot(e.components[0].as_str());
        }
        if eligible {
            eligible = e.has_auth_file && e.auth.is_some();
        }
        if eligible {
            eligible = !blocked_above_exec(entries, k);
        }
        proof {
            assert(evs[k as int] == entries@[k as int]@);
            assert(eligible == is_discovered_slot(evs, k as int));
        }
        if eligible {
            let base = make_slot_id_slug(&e.components);
            let id = ensure_unique_slot_id(base.as_str(), pool);
            let path = entry_path(e);
            let auth = match &e.auth {
                Some(a) => a.clone(),
                None => AuthFileData { openai_api_key: None, tokens: None, last_refresh: None },
            };
            let label = derive_label_from_auth(&auth, &e.components);
            let d = DiscoveredSlot {
                id: id,
                path: path,
                label: label,
                auth: auth,
                components: clone_string_vec(&e.components),
            };
            out.push(d);
            proof {
                assert(Seq::new(out@.len(), |i: int| out@[i]@) =~= Seq::new(
                    (out@.len() - 1) as nat,
                    |i: int| out@[i]@,
                ).push(out@[out@.len() - 1]@));
                assert(scan_model(evs, k as int, pool_k).0 =~= seq![
                    out@[out@.len() - 1]@,
                ] + scan_model(evs, k + 1, string_views(pool@)).0);
                assert(scan_model(evs, 0, pool0).0 =~= Seq::new(out@.len(), |i: int| out@[i]@)
                    + scan_model(evs, k + 1, string_views(pool@)).0);
                assert(scan_model(evs, 0, pool0).1 =~= scan_model(
                    evs,
                    k + 1,
                    string_views(pool@),
                ).1);
            }
        }
        k = k + 1;
    }
    out
}

/// The display key a slot sorts under: its label, or its identifier when it
/// has none, ASCII-lowercased.
pub open spec fn slot_display_key(s: AccountSlotV) -> Seq<char> {
    lower_view(match s.label {
        Some(l) => l,
        None => s.id,
    })
}

/// The slot ordering: the default slot first, then case-insensitive label,
/// then identifier as the tiebreak.
pub open spec fn slot_le(a: AccountSlotV, b: AccountSlotV) -> bool {
    let da = a.id == crate::slots::default_slot_id_view();
    let db = b.id == crate::slots::default_slot_id_view();
    if da != db {
        da
    } else if slot_display_key(a) != slot_display_key(b) {
        lex_lt(slot_display_key(a), slot_display_key(b))
    } else {
        lex_le(a.id, b.id)
    }
}

/// The ordering is total.
pub proof fn lemma_slot_le_total(a: AccountSlotV, b: AccountSlotV)
    ensures
        slot_le(a, b) || slot_le(b, a),
{
    lemma_lex_trichotomy(slot_display_key(a), slot_display_key(b));
    lemma_lex_trichotomy(a.id, b.id);
}

/// The ordering is transitive.
pub proof fn lemma_slot_le_trans(a: AccountSlotV, b: AccountSlotV, c: AccountSlotV)
    requires
        slot_le(a, b),
        slot_le(b, c),
    ensures
        slot_le(a, c),
{
    lemma_lex_trichotomy(slot_display_key(a), slot_display_key(b));
    lemma_lex_trichotomy(slot_display_key(b), slot_display_key(c));
    lemma_lex_trichotomy(slot_display_key(a), slot_display_key(c));
    lemma_lex_trichotomy(a.id, b.id);
    lemma_lex_trichotomy(b.id, c.id);
    lemma_lex_trichotomy(a.id, c.id);
    if slot_display_key(a) != slot_display_key(b) && slot_display_key(b) != slot_display_key(c)
        && lex_lt(slot_display_key(a), slot_display_key(b)) && lex_lt(
        slot_display_key(b),
        slot_display_key(c),
    ) {
        lemma_lex_lt_trans(slot_display_key(a), slot_display_key(b), slot_display_key(c));
    }
    if a.id != b.id && b.id != c.id && lex_lt(a.id, b.id) && lex_lt(b.id, c.id) {
        lemma_lex_lt_trans(a.id, b.id, c.id);
    }
}

/// The slot ordering as a function value, for use with `sorted_by`.
pub open spec fn slot_le_fn() -> spec_fn(AccountSlotV, AccountSlotV) -> bool {
    |a: AccountSlotV, b: AccountSlotV| slot_le(a, b)
}

/// Executable counterpart of [`slot_le`].
pub fn slot_le_exec(a: &AccountSlot, b: &AccountSlot) -> (r: bool)
    ensures
        r == slot_le(a@, b@),
{
    let da = crate::slots::is_default_slot_id(a.id.as_str());
    let db = crate::slots::is_default_slot_id(b.id.as_str());
    if da != db {
        return da;
    }
    let ka = match &a.label {
        Some(l) => l.as_str(),
        None => a.id.as_str(),
    };
    let kb = match &b.label {
        Some(l) => l.as_str(),
        None => b.id.as_str(),
    };
    let c = str_key_cmp(ka, kb, true);
    if c != 0 {
        return c < 0;
    }
    let t = str_key_cmp(a.id.as_str(), b.id.as_str(), false);
    t <= 0
}

/// Sorts slots by [`slot_le`], keeping exactly the same collection.
pub fn sort_slots(v: Vec<AccountSlot>) -> (r: Vec<AccountSlot>)
    ensures
        sorted_by(Seq::new(r@.len(), |i: int| r@[i]@), slot_le_fn()),
        Seq::new(r@.len(), |i: int| r@[i]@).to_multiset() =~= Seq::new(
            v@.len(),
            |i: int| v@[i]@,
        ).to_multiset(),
{
    broadcast use vstd::seq_lib::group_to_multiset_ensures;

    let ghost vv = Seq::new(v@.len(), |i: int| v@[i]@);
    let mut out: Vec<AccountSlot> = Vec::new();
    let mut i: usize = 0;
    while i < v.len()
        invariant
            i <= v@.len(),
            vv == Seq::new(v@.len(), |i: int| v@[i]@),
            sorted_by(Seq::new(out@.len(), |k: int| out@[k]@), slot_le_fn()),
            Seq::new(out@.len(), |k: int| out@[k]@).to_multiset() =~= vv.take(
                i as int,
            ).to_multiset(),
        decreases v@.len() - i,
    {
        let ghost outv = Seq::new(out@.len(), |k: int| out@[k]@);
        let x = v[i].clone();
        let mut p: usize = 0;
        while p < out.len() && slot_le_exec(&out[p], &x)
            invariant
                p <= out@.len(),
                i < v@.len(),
                vv == Seq::new(v@.len(), |i: int| v@[i]@),
                outv == Seq::new(out@.len(), |k: int| out@[k]@),
                x@ == vv[i as int],
                forall|q: int| 0 <= q < p ==> slot_le(outv[q], x@),
            decreases out@.len() - p,
        {
            proof {
                assert(outv[p as int] == out@[p as int]@);
            }
            p = p + 1;
        }
        proof {
            if p < out@.len() {
                assert(!slot_le(outv[p as int], x@));
                lemma_slot_le_total(outv[p as int], x@);
            }
        }
        out.insert(p, x);
        proof {
            let newv = Seq::new(out@.len(), |k: int| out@[k]@);
            assert(newv =~= outv.insert(p as int, vv[i as int]));
            assert forall|m: int, n: int| 0 <= m < n < newv.len() implies slot_le_fn()(
                newv[m],
                newv[n],
            ) by {
                if m < p {
                    assert(newv[m] == outv[m]);
                }
                if m > p {
                    assert(newv[m] == outv[m - 1]);
                }
                if n < p {
                    assert(newv[n] == outv[n]);
                }
                if n > p {
                    assert(newv[n] == outv[n - 1]);
                }
                if n < p || (m != p && n == p) {
                    // both below the insertion point, or ending at it
                    if n < p {
                        assert(slot_le_fn()(outv[m], outv[n]));
                    } else {
                        assert(slot_le(outv[m], vv[i as int]));
                    }
                } else if m == p {
                    // from the inserted element up
                    assert(p < outv.len() + 1);
                    assert(n - 1 < outv.len());
                    assert(slot_le(vv[i as int], outv[p as int]));
                    if n - 1 > p {
                        assert(slot_le_fn()(outv[p as int], outv[n - 1]));
                        lemma_slot_le_trans(vv[i as int], outv[p as int], outv[n - 1]);
                    }
                } else if m < p && n > p {
                    assert(slot_le_fn()(outv[m], outv[n - 1]));
                } else {
                    // both above the insertion point
                    assert(slot_le_fn()(outv[m - 1], outv[n - 1]));
                }
            }
            assert(sorted_by(newv, slot_le_fn()));
            lemma_seq_insert_multiset(outv, p as int, vv[i as int]);
            assert(newv.to_multiset() =~= outv.to_multiset().insert(vv[i as int]));
            vv.take(i as int).to_multiset_ensures();
            let pushed = vv.take(i as int).push(vv[i as int]);
            assert(vv.take(i + 1) =~= pushed);
            assert(pushed.to_multiset() =~= vv.take(i as int).to_multiset().insert(vv[i as int]));
            assert(newv.to_multiset() =~= vv.take(i + 1).to_multiset());
        }
        i = i + 1;
    }
    proof {
        assert(vv.take(v@.len() as int) =~= vv);
    }
    out
}

/// The identifiers of the registry rows, in order.
pub open spec fn reg_ids(slots: Seq<SlotRegistryEntryV>) -> Seq<Seq<char>> {
    Seq::new(slots.len(), |i: int| slots[i].id)
}

/// Copies the registry row identifiers into a pool vector.
fn collect_reg_ids(slots: &Vec<SlotRegistryEntry>) -> (r: Vec<String>)
    ensures
        string_views(r@) =~= reg_ids(Seq::new(slots@.len(), |i: int| slots@[i]@)),
{
    let mut out: Vec<String> = Vec::new();
    let mut i: usize = 0;
    while i < slots.len()
        invariant
            i <= slots@.len(),
            out@.len() == i,
            forall|j: int| 0 <= j < i ==> out@[j]@ == slots@[j]@.id,
        decreases slots@.len() - i,
    {
        out.push(slots[i].id.clone());
        i = i + 1;
    }
    out
}

/// Whether some registry row resolves to the given absolute path.
pub open spec fn path_registered(
    slots: Seq<SlotRegistryEntryV>,
    code_home: Seq<char>,
    path: Seq<char>,
) -> bool {
    exists|i: int|
        0 <= i < slots.len() && resolve_entry_path_view(slots[i], code_home) == path
}

/// Executable counterpart of [`path_registered`].
fn path_registered_exec(slots: &Vec<SlotRegistryEntry>, code_home: &str, path: &str) -> (r: bool)
    ensures
        r == path_registered(Seq::new(slots@.len(), |i: int| slots@[i]@), code_home@, path@),
{
    let ghost rows = Seq::new(slots@.len(), |i: int| slots@[i]@);
    let mut i: usize = 0;
    while i < slots.len()
        invariant
            i <= slots@.len(),
            rows == Seq::new(slots@.len(), |i: int| slots@[i]@),
            forall|j: int|
                0 <= j < i ==> resolve_entry_path_view(rows[j], code_home@) != path@,
        decreases slots@.len() - i,
    {
        let resolved = resolve_entry_path(&slots[i], code_home);
        if str_eq_str(resolved.as_str(), path) {
            proof {
                assert(resolve_entry_path_view(rows[i as int], code_home@) == path@);
            }
            return true;
        }
        i = i + 1;
    }
    false
}

/// Whether the scan saw a directory at this path holding a credential file.
pub open spec fn scan_path_has_auth(entries: Seq<ScanEntryV>, path: Seq<char>) -> bool {
    exists|j: int|
        0 <= j < entries.len() && entry_path_view(entries[j]) == path
            && entries[j].has_auth_file
}

/// Executable counterpart of [`scan_path_has_auth`].
pub fn scan_path_has_auth_exec(entries: &Vec<ScanEntry>, path: &str) -> (r: bool)
    ensures
        r == scan_path_has_auth(Seq::new(entries@.len(), |i: int| entries@[i]@), path@),
{
    let ghost evs = Seq::new(entries@.len(), |i: int| entries@[i]@);
    let mut j: usize = 0;
    while j < entries.len()
        invariant
            j <= entries@.len(),
            evs == Seq::new(entries@.len(), |i: int| entries@[i]@),
            forall|m: int|
                0 <= m < j ==> !(entry_path_view(evs[m]) == path@ && evs[m].has_auth_file),
        decreases entries@.len() - j,
    {
        let p = entry_path(&entries[j]);
        if str_eq_str(p.as_str(), path) && entries[j].has_auth_file {
            proof {
                assert(entry_path_view(evs[j as int]) == path@ && evs[j as int].has_auth_file);
            }
            return true;
        }
        j = j + 1;
    }
    false
}

/// Merging freshly discovered directories into the registry: a directory
/// whose resolved path is already registered is left alone (so a renamed
/// registry row keeps claiming it); a discovered identifier colliding with
/// a known one is dropped; anything else is appended, with its path stored
/// relative to the installation root. The flag reports whether anything was
/// appended (the caller then rewrites the registry file).
pub open spec fn hydrate_model(
    slots: Seq<SlotRegistryEntryV>,
    known: Seq<Seq<char>>,
    discovered: Seq<DiscoveredSlotV>,
    code_home: Seq<char>,
) -> (Seq<SlotRegistryEntryV>, Seq<Seq<char>>, bool)
    decreases discovered.len(),
{
    if discovered.len() == 0 {
        (slots, known, false)
    } else {
        let d = discovered[0];
        if path_registered(slots, code_home, d.path) || seq_has_str(known, d.id) {
            hydrate_model(slots, known, discovered.drop_first(), code_home)
        } else {
            let e = SlotRegistryEntryV {
                id: d.id,
                label: Some(d.label),
                path: Some(relativize_path_view(code_home, d.path)),
            };
            let rest = hydrate_model(
                slots.push(e),
                known.push(d.id),
                discovered.drop_first(),
                code_home,
            );
            (rest.0, rest.1, true)
        }
    }
}

/// Executable counterpart of [`hydrate_model`], updating the registry rows
/// in place.
fn hydrate_registry(reg: &mut SlotRegistry, code_home: &str, discovered: &Vec<DiscoveredSlot>) -> (dirty:
    bool)
    ensures
        ({
            let h = hydrate_model(
                old(reg)@.slots,
                reg_ids(old(reg)@.slots),
                Seq::new(discovered@.len(), |i: int| discovered@[i]@),
                code_home@,
            );
            &&& final(reg)@.slots == h.0
            &&& final(reg)@.version == old(reg)@.version
            &&& dirty == h.2
        }),
{
    let ghost dall = Seq::new(discovered@.len(), |i: int| discovered@[i]@);
    let ghost slots0 = reg@.slots;
    let ghost known0 = reg_ids(reg@.slots);
    let mut known = collect_reg_ids(&reg.slots);
    let mut dirty = false;
    proof {
        assert(dall.skip(0) =~= dall);
        assert(string_views(known@) =~= known0);
        assert(string_views(known@) == known0);
    }
    let mut i: usize = 0;
    while i < discovered.len()
        invariant
            i <= discovered@.len(),
            dall == Seq::new(discovered@.len(), |i: int| discovered@[i]@),
            reg@.version == old(reg)@.version,
            hydrate_model(slots0, known0, dall, code_home@).0 == hydrate_model(
                reg@.slots,
                string_views(known@),
                dall.skip(i as int),
                code_home@,
            ).0,
            hydrate_model(slots0, known0, dall, code_home@).1 == hydrate_model(
                reg@.slots,
                string_views(known@),
                dall.skip(i as int),
                code_home@,
            ).1,
            hydrate_model(slots0, known0, dall, code_home@).2 == (dirty || hydrate_model(
                reg@.slots,
                string_views(known@),
                dall.skip(i as int),
                code_home@,
            ).2),
            slots0 == old(reg)@.slots,
            known0 == reg_ids(old(reg)@.slots),
        decreases discovered@.len() - i,
    {
        let ghost rows_before = reg@.slots;
        let ghost known_before = string_views(known@);
        proof {
            assert(dall.skip(i as int)[0] == dall[i as int]);
            assert(dall.skip(i as int).drop_first() =~= dall.skip(i + 1));
        }
        let d = &discovered[i];
        let skip_it = path_registered_exec(&reg.slots, code_home, d.path.as_str())
            || crate::slug::contains_string(&known, d.id.as_str());
        if !skip_it {
            let rel = relativize_path(code_home, d.path.as_str());
            reg.slots.push(
                SlotRegistryEntry {
                    id: d.id.clone(),
                    label: Some(d.label.clone()),
                    path: Some(rel),
                },
            );
            known.push(d.id.clone());
            dirty = true;
            proof {
                assert(reg@.slots =~= rows_before.push(
                    SlotRegistryEntryV {
                        id: dall[i as int].id,
                        label: Some(dall[i as int].label),
                        path: Some(relativize_path_view(code_home@, dall[i as int].path)),
                    },
                ));
                assert(string_views(known@) =~= known_before.push(dall[i as int].id));
            }
        }
        i = i + 1;
    }
    proof {
        assert(dall.skip(discovered@.len() as int) =~= Seq::<DiscoveredSlotV>::empty());
    }
    dirty
}

/// The slot a registry row denotes, with its credential-file presence read
/// from the scan.
pub open spec fn entry_to_slot(
    e: SlotRegistryEntryV,
    code_home: Seq<char>,
    entries: Seq<ScanEntryV>,
) -> AccountSlotV {
    AccountSlotV {
        id: e.id,
        label: e.label,
        path: resolve_entry_path_view(e, code_home),
        has_auth_file: scan_path_has_auth(entries, resolve_entry_path_view(e, code_home)),
        is_default: false,
    }
}

/// The slots of all registry rows.
pub open spec fn to_slots_model(
    slots: Seq<SlotRegistryEntryV>,
    code_home: Seq<char>,
    entries: Seq<ScanEntryV>,
) -> Seq<AccountSlotV> {
    Seq::new(slots.len(), |i: int| entry_to_slot(slots[i], code_home, entries))
}

/// The synthetic default slot: fixed identifier and label, bound to the
/// installation root itself.
pub open spec fn default_slot_view(code_home: Seq<char>, root_has_auth_file: bool) -> AccountSlotV {
    AccountSlotV {
        id: crate::slots::default_slot_id_view(),
        label: Some(slot_label_view(seq!["default"@])),
        path: code_home,
        has_auth_file: root_has_auth_file,
        is_default: true,
    }
}

/// Executable counterpart of [`default_slot_view`].
pub fn default_slot(code_home: &str, root_has_auth_file: bool) -> (r: AccountSlot)
    ensures
        r@ == default_slot_view(code_home@, root_has_auth_file),
{
    let mut comps: Vec<String> = Vec::new();
    comps.push(String::from_str("default"));
    let label = slot_label(&comps);
    proof {
        assert(strings_view(comps@) =~= seq!["default"@]);
    }
    AccountSlot {
        id: String::from_str("slot-default"),
        label: Some(label),
        path: String::from_str(code_home),
        has_auth_file: root_has_auth_file,
        is_default: true,
    }
}

/// All known slots: the registry rows (merged with fresh discoveries) plus
/// the synthetic default, sorted default-first, then by case-insensitive
/// label, then identifier. The flag reports whether the registry changed
/// and should be rewritten.
pub fn list_slots(
    reg: &mut SlotRegistry,
    code_home: &str,
    scan: &Vec<ScanEntry>,
    root_has_auth_file: bool,
) -> (r: (Vec<AccountSlot>, bool))
    requires
        scan@.len() < usize::MAX - 2,
    ensures
        ({
            let entries = Seq::new(scan@.len(), |i: int| scan@[i]@);
            let discovered = scan_model(entries, 0, Seq::<Seq<char>>::empty()).0;
            let h = hydrate_model(
                old(reg)@.slots,
                reg_ids(old(reg)@.slots),
                discovered,
                code_home@,
            );
            let unsorted = to_slots_model(h.0, code_home@, entries).push(
                default_slot_view(code_home@, root_has_auth_file),
            );
            &&& final(reg)@.slots == h.0
            &&& final(reg)@.version == old(reg)@.version
            &&& r.1 == h.2
            &&& sorted_by(Seq::new(r.0@.len(), |i: int| r.0@[i]@), slot_le_fn())
            &&& Seq::new(r.0@.len(), |i: int| r.0@[i]@).to_multiset() == unsorted.to_multiset()
        }),
{
    let ghost entries = Seq::new(scan@.len(), |i: int| scan@[i]@);
    let mut pool: Vec<String> = Vec::new();
    proof {
        assert(string_views(pool@) =~= Seq::<Seq<char>>::empty());
    }
    let discovered = scan_slot_dirs(scan, &mut pool);
    let dirty = hydrate_registry(reg, code_home, &discovered);
    proof {
        assert(Seq::new(discovered@.len(), |i: int| discovered@[i]@) == scan_model(
            entries,
            0,
            Seq::<Seq<char>>::empty(),
        ).0);
    }
    let ghost rows = reg@.slots;
    let mut out: Vec<AccountSlot> = Vec::new();
    let mut i: usize = 0;
    while i < reg.slots.len()
        invariant
            i <= reg@.slots.len(),
            rows == reg@.slots,
            out@.len() == i,
            forall|j: int|
                0 <= j < i ==> out@[j]@ == entry_to_slot(rows[j], code_home@, entries),
            entries == Seq::new(scan@.len(), |i: int| scan@[i]@),
        decreases reg@.slots.len() - i,
    {
        let e = &reg.slots[i];
        let path = resolve_entry_path(e, code_home);
        let has_auth = scan_path_has_auth_exec(scan, path.as_str());
        out.push(
            AccountSlot {
                id: e.id.clone(),
                label: crate::account::clone_opt_string(&e.label),
                path: path,
                has_auth_file: has_auth,
                is_default: false,
            },
        );
        proof {
            assert(rows[i as int] == reg@.slots[i as int]);
        }
        i = i + 1;
    }
    out.push(default_slot(code_home, root_has_auth_file));
    proof {
        assert(Seq::new(out@.len(), |k: int| out@[k]@) =~= to_slots_model(
            rows,
            code_home@,
            entries,
        ).push(default_slot_view(code_home@, root_has_auth_file)));
    }
    let sorted = sort_slots(out);
    (sorted, dirty)
}

/// Creates a fresh slot under the installation root: its identifier is the
/// slug of the cleaned label (or a fixed fallback), disambiguated against
/// both registry and freshly discovered identifiers; the row is registered.
/// No credential file is created; the caller creates the directory at the
/// returned slot's path.
pub open spec fn add_slot_model(
    reg: SlotRegistryV,
    entries: Seq<ScanEntryV>,
    code_home: Seq<char>,
    label: Option<Seq<char>>,
) -> (SlotRegistryV, AccountSlotV) {
    let pool = reg_ids(reg.slots) + scan_model(entries, 0, Seq::<Seq<char>>::empty()).1;
    let cleaned = clean_label_view(label);
    let slug_comp = match cleaned {
        Some(l) => if sanitize_component_view(l).len() > 0 {
            sanitize_component_view(l)
        } else {
            "custom"@
        },
        None => "custom"@,
    };
    let id = ensure_unique_id(make_slot_id_view(seq![slug_comp]), pool);
    let dir = path_join(code_home, id);
    let entry = SlotRegistryEntryV {
        id: id,
        label: cleaned,
        path: Some(relativize_path_view(code_home, dir)),
    };
    let slot = AccountSlotV {
        id: id,
        label: cleaned,
        path: dir,
        has_auth_file: scan_path_has_auth(entries, dir),
        is_default: false,
    };
    (SlotRegistryV { slots: reg.slots.push(entry), ..reg }, slot)
}

/// Executable counterpart of [`add_slot_model`].
pub fn add_slot(
    reg: &mut SlotRegistry,
    code_home: &str,
    scan: &Vec<ScanEntry>,
    label: Option<&str>,
) -> (r: AccountSlot)
    requires
        old(reg)@.slots.len() + scan@.len() < usize::MAX - 3,
    ensures
        ({
            let m = add_slot_model(
                old(reg)@,
                Seq::new(scan@.len(), |i: int| scan@[i]@),
                code_home@,
                match label {
                    Some(s) => Some(s@),
                    None => None,
                },
            );
            &&& final(reg)@ == m.0
            &&& r@ == m.1
        }),
{
    let ghost entries = Seq::new(scan@.len(), |i: int| scan@[i]@);
    let mut pool = collect_reg_ids(&reg.slots);
    let nreg = pool.len();
    proof {
        assert(string_views(pool@).len() == pool@.len());
        assert(reg_ids(old(reg)@.slots).len() == old(reg)@.slots.len());
    }
    let mut scan_pool: Vec<String> = Vec::new();
    proof {
        assert(string_views(scan_pool@) =~= Seq::<Seq<char>>::empty());
    }
    let _discovered = scan_slot_dirs(scan, &mut scan_pool);
    let mut si: usize = 0;
    while si < scan_pool.len()
        invariant
            si <= scan_pool@.len(),
            nreg == old(reg)@.slots.len(),
            pool@.len() == nreg + si,
            forall|j: int| 0 <= j < nreg ==> pool@[j]@ == reg_ids(old(reg)@.slots)[j],
            forall|j: int| 0 <= j < si ==> pool@[nreg + j]@ == scan_pool@[j]@,
            reg@ == old(reg)@,
            scan_pool@.len() <= scan@.len(),
            old(reg)@.slots.len() + scan@.len() < usize::MAX - 3,
        decreases scan_pool@.len() - si,
    {
        pool.push(scan_pool[si].clone());
        si = si + 1;
    }
    proof {
        assert(string_views(pool@) =~= reg_ids(old(reg)@.slots) + string_views(scan_pool@));
    }
    let cleaned = crate::slots::clean_label(label);
    let slug_comp: String = match &cleaned {
        Some(l) => {
            let sc = crate::slug::sanitize_slot_component(l.as_str());
            if sc.unicode_len() > 0 {
                sc
            } else {
                String::from_str("custom")
            }
        },
        None => String::from_str("custom"),
    };
    let mut comp_vec: Vec<String> = Vec::new();
    comp_vec.push(slug_comp);
    let base = make_slot_id_slug(&comp_vec);
    proof {
        assert(strings_view(comp_vec@) =~= seq![comp_vec@[0]@]);
    }
    let id = ensure_unique_slot_id(base.as_str(), &mut pool);
    let dir = path_join_exec(code_home, id.as_str());
    let rel = crate::slots::relativize_path(code_home, dir.as_str());
    let has_auth = scan_path_has_auth_exec(scan, dir.as_str());
    reg.slots.push(
        SlotRegistryEntry {
            id: id.clone(),
            label: crate::account::clone_opt_string(&cleaned),
            path: Some(rel),
        },
    );
    proof {
        let m = add_slot_model(
            old(reg)@,
            entries,
            code_home@,
            match label {
                Some(s) => Some(s@),
                None => None,
            },
        );
        assert(final(reg)@.slots =~= m.0.slots);
    }
    AccountSlot {
        id: id,
        label: cleaned,
        path: dir,
        has_auth_file: has_auth,
        is_default: false,
    }
}

/// The paths of the directories from index `k` on that satisfy the
/// discovery rule, in order.
pub open spec fn eligible_paths(entries: Seq<ScanEntryV>, k: int) -> Seq<Seq<char>>
    decreases entries.len() - k,
{
    if k < 0 || k >= entries.len() {
        Seq::<Seq<char>>::empty()
    } else if is_discovered_slot(entries, k) {
        seq![entry_path_view(entries[k])] + eligible_paths(entries, k + 1)
    } else {
        eligible_paths(entries, k + 1)
    }
}

/// Law: discovery respects the depth bound, in both directions. The
/// discovered slots are exactly the directories satisfying the discovery
/// rule, path for path and in order — so every slot-prefixed directory with
/// a credential file up to two levels below the prefix level is discovered,
/// and a deeper one never is, since the rule bounds the component count —
/// and every discovered slot lies one to three components below its root.
pub proof fn lemma_scan_depth(entries: Seq<ScanEntryV>, k: int, pool: Seq<Seq<char>>)
    ensures
        Seq::new(
            scan_model(entries, k, pool).0.len(),
            |i: int| scan_model(entries, k, pool).0[i].path,
        ) == eligible_paths(entries, k),
        forall|i: int|
            0 <= i < scan_model(entries, k, pool).0.len() ==> 1 <= (
            #[trigger] scan_model(entries, k, pool).0[i]).components.len() <= 3,
    decreases entries.len() - k,
{
    if k < 0 || k >= entries.len() {
        assert(Seq::new(
            scan_model(entries, k, pool).0.len(),
            |i: int| scan_model(entries, k, pool).0[i].path,
        ) =~= eligible_paths(entries, k));
    } else {
        let m = scan_model(entries, k, pool);
        if is_discovered_slot(entries, k) {
            let e = entries[k];
            let id = ensure_unique_id(make_slot_id_view(e.components), pool);
            lemma_scan_depth(entries, k + 1, pool.push(id));
            let rest = scan_model(entries, k + 1, pool.push(id));
            assert forall|i: int|
                0 <= i < m.0.len() implies 1 <= (#[trigger] m.0[i]).components.len() <= 3 by {
                if i > 0 {
                    assert(m.0[i] == rest.0[i - 1]);
                }
            }
            assert(Seq::new(m.0.len(), |i: int| m.0[i].path) =~= eligible_paths(entries, k)) by {
                assert forall|i: int| 0 <= i < m.0.len() implies m.0[i].path == eligible_paths(
                    entries,
                    k,
                )[i] by {
                    if i > 0 {
                        assert(m.0[i] == rest.0[i - 1]);
                        assert(Seq::new(rest.0.len(), |n: int| rest.0[n].path)[i - 1]
                            == eligible_paths(entries, k + 1)[i - 1]);
                        assert(eligible_paths(entries, k)[i] == eligible_paths(entries, k + 1)[i
                            - 1]);
                    }
                }
            }
        } else {
            lemma_scan_depth(entries, k + 1, pool);
            let rest = scan_model(entries, k + 1, pool);
            assert(m.0 == rest.0);
        }
    }
}

/// Law: the default slot is always present and sorts first. Any listing
/// that is sorted by the slot ordering and holds exactly the registry rows'
/// slots plus the synthetic default — as `list_slots` returns — is
/// non-empty and starts with the synthetic default slot, provided no
/// registry row has usurped the default identifier.
pub proof fn lemma_default_slot_first(
    listed: Seq<AccountSlotV>,
    rows: Seq<SlotRegistryEntryV>,
    code_home: Seq<char>,
    entries: Seq<ScanEntryV>,
    root_has_auth_file: bool,
)
    requires
        sorted_by(listed, slot_le_fn()),
        listed.to_multiset() == to_slots_model(rows, code_home, entries).push(
            default_slot_view(code_home, root_has_auth_file),
        ).to_multiset(),
        forall|i: int|
            0 <= i < rows.len() ==> (#[trigger] rows[i]).id != crate::slots::default_slot_id_view(),
    ensures
        listed.len() == rows.len() + 1,
        listed.len() >= 1,
        listed[0] == default_slot_view(code_home, root_has_auth_file),
        listed.contains(default_slot_view(code_home, root_has_auth_file)),
{
    broadcast use vstd::seq_lib::group_to_multiset_ensures;

    let dflt = default_slot_view(code_home, root_has_auth_file);
    let unsorted = to_slots_model(rows, code_home, entries).push(dflt);
    assert(listed.len() == unsorted.len()) by {
        assert(listed.to_multiset().len() == listed.len());
        assert(unsorted.to_multiset().len() == unsorted.len());
    }
    assert(unsorted.contains(dflt)) by {
        assert(unsorted[unsorted.len() - 1] == dflt);
    }
    assert(unsorted.to_multiset().count(dflt) > 0);
    assert(listed.to_multiset().count(dflt) > 0);
    assert(listed.contains(dflt));
    let m = choose|m: int| 0 <= m < listed.len() && listed[m] == dflt;
    if m > 0 {
        assert(slot_le_fn()(listed[0], listed[m]));
        assert(slot_le(listed[0], dflt));
        assert(listed.to_multiset().count(listed[0]) > 0);
        assert(listed.contains(listed[0]));
        assert(unsorted.to_multiset().count(listed[0]) > 0);
        assert(unsorted.contains(listed[0]));
        let u = choose|u: int| 0 <= u < unsorted.len() && unsorted[u] == listed[0];
        if u < rows.len() {
            assert(unsorted[u] == to_slots_model(rows, code_home, entries)[u]);
            assert(listed[0].id == rows[u].id);
            assert(listed[0].id != crate::slots::default_slot_id_view());
            assert(!slot_le(listed[0], dflt));
        } else {
            assert(listed[0] == dflt);
        }
    } else {
        assert(listed[0] == dflt);
    }
}

/// The display key an account sorts under: its label, or its identifier
/// when it has none, ASCII-lowercased.
pub open spec fn account_display_key(a: StoredAccountV) -> Seq<char> {
    lower_view(match a.label {
        Some(l) => l,
        None => a.id,
    })
}

/// The account ordering used for slot-derived listings.
pub open spec fn acct_le(a: StoredAccountV, b: StoredAccountV) -> bool {
    account_display_key(a) == account_display_key(b) || lex_lt(
        account_display_key(a),
        account_display_key(b),
    )
}

/// The account ordering as a function value.
pub open spec fn acct_le_fn() -> spec_fn(StoredAccountV, StoredAccountV) -> bool {
    |a: StoredAccountV, b: StoredAccountV| acct_le(a, b)
}

pub proof fn lemma_acct_le_total(a: StoredAccountV, b: StoredAccountV)
    ensures
        acct_le(a, b) || acct_le(b, a),
{
    lemma_lex_trichotomy(account_display_key(a), account_display_key(b));
}

pub proof fn lemma_acct_le_trans(a: StoredAccountV, b: StoredAccountV, c: StoredAccountV)
    requires
        acct_le(a, b),
        acct_le(b, c),
    ensures
        acct_le(a, c),
{
    lemma_lex_trichotomy(account_display_key(a), account_display_key(b));
    lemma_lex_trichotomy(account_display_key(b), account_display_key(c));
    lemma_lex_trichotomy(account_display_key(a), account_display_key(c));
    if lex_lt(account_display_key(a), account_display_key(b)) && lex_lt(
        account_display_key(b),
        account_display_key(c),
    ) {
        lemma_lex_lt_trans(
            account_display_key(a),
            account_display_key(b),
            account_display_key(c),
        );
    }
}

/// Executable counterpart of [`acct_le`].
fn acct_le_exec(a: &StoredAccount, b: &StoredAccount) -> (r: bool)
    ensures
        r == acct_le(a@, b@),
{
    let ka = match &a.label {
        Some(l) => l.as_str(),
        None => a.id.as_str(),
    };
    let kb = match &b.label {
        Some(l) => l.as_str(),
        None => b.id.as_str(),
    };
    let c = str_key_cmp(ka, kb, true);
    c <= 0
}

/// Sorts accounts by [`acct_le`], keeping exactly the same collection.
pub fn sort_accounts(v: Vec<StoredAccount>) -> (r: Vec<StoredAccount>)
    ensures
        sorted_by(Seq::new(r@.len(), |i: int| r@[i]@), acct_le_fn()),
        Seq::new(r@.len(), |i: int| r@[i]@).to_multiset() =~= Seq::new(
            v@.len(),
            |i: int| v@[i]@,
        ).to_multiset(),
{
    broadcast use vstd::seq_lib::group_to_multiset_ensures;

    let ghost vv = Seq::new(v@.len(), |i: int| v@[i]@);
    let mut out: Vec<StoredAccount> = Vec::new();
    let mut i: usize = 0;
    while i < v.len()
        invariant
            i <= v@.len(),
            vv == Seq::new(v@.len(), |i: int| v@[i]@),
            sorted_by(Seq::new(out@.len(), |k: int| out@[k]@), acct_le_fn()),
            Seq::new(out@.len(), |k: int| out@[k]@).to_multiset() =~= vv.take(
                i as int,
            ).to_multiset(),
        decreases v@.len() - i,
    {
        let ghost outv = Seq::new(out@.len(), |k: int| out@[k]@);
        let x = v[i].clone();
        let mut p: usize = 0;
        while p < out.len() && acct_le_exec(&out[p], &x)
            invariant
                p <= out@.len(),
                i < v@.len(),
                vv == Seq::new(v@.len(), |i: int| v@[i]@),
                outv == Seq::new(out@.len(), |k: int| out@[k]@),
                x@ == vv[i as int],
                forall|q: int| 0 <= q < p ==> acct_le(outv[q], x@),
            decreases out@.len() - p,
        {
            proof {
                assert(outv[p as int] == out@[p as int]@);
            }
            p = p + 1;
        }
        proof {
            if p < out@.len() {
                assert(!acct_le(outv[p as int], x@));
                lemma_acct_le_total(outv[p as int], x@);
            }
        }
        out.insert(p, x);
        proof {
            let newv = Seq::new(out@.len(), |k: int| out@[k]@);
            assert(newv =~= outv.insert(p as int, vv[i as int]));
            assert forall|m: int, n: int| 0 <= m < n < newv.len() implies acct_le_fn()(
                newv[m],
                newv[n],
            ) by {
                if m < p {
                    assert(newv[m] == outv[m]);
                }
                if m > p {
                    assert(newv[m] == outv[m - 1]);
                }
                if n < p {
                    assert(newv[n] == outv[n]);
                }
                if n > p {
                    assert(newv[n] == outv[n - 1]);
                }
                if n < p || (m != p && n == p) {
                    if n < p {
                        assert(acct_le_fn()(outv[m], outv[n]));
                    } else {
                        assert(acct_le(outv[m], vv[i as int]));
                    }
                } else if m == p {
                    assert(acct_le(vv[i as int], outv[p as int]));
                    if n - 1 > p {
                        assert(acct_le_fn()(outv[p as int], outv[n - 1]));
                        lemma_acct_le_trans(vv[i as int], outv[p as int], outv[n - 1]);
                    }
                } else if m < p && n > p {
                    assert(acct_le_fn()(outv[m], outv[n - 1]));
                } else {
                    assert(acct_le_fn()(outv[m - 1], outv[n - 1]));
                }
            }
            assert(sorted_by(newv, acct_le_fn()));
            lemma_seq_insert_multiset(outv, p as int, vv[i as int]);
            assert(newv.to_multiset() =~= outv.to_multiset().insert(vv[i as int]));
            vv.take(i as int).to_multiset_ensures();
            let pushed = vv.take(i as int).push(vv[i as int]);
            assert(vv.take(i + 1) =~= pushed);
            assert(pushed.to_multiset() =~= vv.take(i as int).to_multiset().insert(vv[i as int]));
            assert(newv.to_multiset() =~= vv.take(i + 1).to_multiset());
        }
        i = i + 1;
    }
    proof {
        assert(vv.take(v@.len() as int) =~= vv);
    }
    out
}

/// Index of the last registry row resolving to the given path.
pub open spec fn find_entry_by_path_last(
    slots: Seq<SlotRegistryEntryV>,
    code_home: Seq<char>,
    path: Seq<char>,
) -> Option<int>
    decreases slots.len(),
{
    if slots.len() == 0 {
        None
    } else if resolve_entry_path_view(slots.last(), code_home) == path {
        Some(slots.len() - 1)
    } else {
        find_entry_by_path_last(slots.drop_last(), code_home, path)
    }
}

/// Index of the last registry row with the given identifier.
pub open spec fn find_entry_last_by_id(slots: Seq<SlotRegistryEntryV>, id: Seq<char>) -> Option<
    int,
>
    decreases slots.len(),
{
    if slots.len() == 0 {
        None
    } else if slots.last().id == id {
        Some(slots.len() - 1)
    } else {
        find_entry_last_by_id(slots.drop_last(), id)
    }
}

/// The label override the registry holds for an identifier, if any.
pub open spec fn label_override(slots: Seq<SlotRegistryEntryV>, id: Seq<char>) -> Option<
    Seq<char>,
> {
    match find_entry_last_by_id(slots, id) {
        Some(i) => slots[i].label,
        None => None,
    }
}

/// The account a credential file denotes: session-token mode when a bundle
/// is present, API-key mode otherwise; the label is the hint, or one derived
/// from the file; the timestamps of a slot-derived account are unset.
pub open spec fn stored_from_auth_model(
    id: Seq<char>,
    auth: AuthFileDataV,
    label_hint: Option<Seq<char>>,
    comps: Seq<Seq<char>>,
) -> StoredAccountV {
    StoredAccountV {
        id: id,
        mode: if auth.tokens is Some {
            crate::account::AuthMode::ChatGPT
        } else {
            crate::account::AuthMode::ApiKey
        },
        label: match label_hint {
            Some(l) => Some(l),
            None => Some(derive_label_view(auth, comps)),
        },
        openai_api_key: auth.openai_api_key,
        tokens: auth.tokens,
        last_refresh: auth.last_refresh,
        created_at: None,
        last_used_at: None,
    }
}

/// Executable counterpart of [`stored_from_auth_model`]; consumes the file
/// content.
pub fn stored_account_from_auth(
    id: String,
    auth: AuthFileData,
    label_hint: Option<String>,
    components: &Vec<String>,
) -> (r: StoredAccount)
    ensures
        r@ == stored_from_auth_model(id@, auth@, opt_view(label_hint), strings_view(components@)),
{
    let label: Option<String> = match label_hint {
        Some(l) => Some(l),
        None => Some(derive_label_from_auth(&auth, components)),
    };
    let mode = if auth.tokens.is_some() {
        crate::account::AuthMode::ChatGPT
    } else {
        crate::account::AuthMode::ApiKey
    };
    StoredAccount {
        id: id,
        mode: mode,
        label: label,
        openai_api_key: auth.openai_api_key,
        tokens: auth.tokens,
        last_refresh: auth.last_refresh,
        created_at: None,
        last_used_at: None,
    }
}

/// The effective identifier of a discovered slot: a registry row that
/// resolves to the slot's path claims it (keeping a moved or renamed slot's
/// identifier stable); otherwise the freshly assigned identifier stands.
pub open spec fn effective_slot_id(
    reg: SlotRegistryV,
    code_home: Seq<char>,
    d: DiscoveredSlotV,
) -> Seq<char> {
    match find_entry_by_path_last(reg.slots, code_home, d.path) {
        Some(i) => reg.slots[i].id,
        None => d.id,
    }
}

/// The account one discovered slot contributes, registry overrides applied.
pub open spec fn discovered_account(
    reg: SlotRegistryV,
    code_home: Seq<char>,
    d: DiscoveredSlotV,
) -> StoredAccountV {
    let id = effective_slot_id(reg, code_home, d);
    let acc = stored_from_auth_model(id, d.auth, Some(d.label), d.components);
    match label_override(reg.slots, id) {
        Some(l) => StoredAccountV { label: Some(l), ..acc },
        None => acc,
    }
}

/// The account the installation root's own credential file contributes.
pub open spec fn default_slot_account(
    reg: SlotRegistryV,
    default_auth: AuthFileDataV,
) -> StoredAccountV {
    let acc = stored_from_auth_model(
        crate::slots::default_slot_id_view(),
        default_auth,
        Some(slot_label_view(seq!["default"@])),
        seq!["default"@],
    );
    match label_override(reg.slots, crate::slots::default_slot_id_view()) {
        Some(l) => StoredAccountV { label: Some(l), ..acc },
        None => acc,
    }
}

/// View of an optional credential file reference.
pub open spec fn opt_auth_ref_view(o: Option<&AuthFileData>) -> Option<AuthFileDataV> {
    match o {
        Some(a) => Some(a@),
        None => None,
    }
}

/// All slot-derived accounts, before sorting: one per discovered slot, plus
/// the default slot's account when the root credential file is non-empty and
/// no discovered slot already claimed the default identifier.
pub open spec fn discover_accounts_unsorted(
    reg: SlotRegistryV,
    code_home: Seq<char>,
    entries: Seq<ScanEntryV>,
    default_auth: Option<AuthFileDataV>,
) -> Seq<StoredAccountV> {
    let ds = scan_model(entries, 0, Seq::<Seq<char>>::empty()).0;
    let accs = Seq::new(ds.len(), |i: int| discovered_account(reg, code_home, ds[i]));
    let ids = Seq::new(ds.len(), |i: int| effective_slot_id(reg, code_home, ds[i]));
    match default_auth {
        Some(a) => if (a.tokens is Some || a.openai_api_key is Some) && !seq_has_str(
            ids,
            crate::slots::default_slot_id_view(),
        ) {
            accs.push(default_slot_account(reg, a))
        } else {
            accs
        },
        None => accs,
    }
}

/// Finds the last registry row resolving to the path, as an index.
fn find_index_by_path_last(slots: &Vec<SlotRegistryEntry>, code_home: &str, path: &str) -> (r:
    Option<usize>)
    ensures
        ({
            let rows = Seq::new(slots@.len(), |i: int| slots@[i]@);
            match r {
                Some(i) => i < slots@.len() && find_entry_by_path_last(rows, code_home@, path@)
                    == Some(i as int),
                None => find_entry_by_path_last(rows, code_home@, path@) is None,
            }
        }),
{
    let ghost rows = Seq::new(slots@.len(), |i: int| slots@[i]@);
    let mut found: Option<usize> = None;
    let mut i: usize = 0;
    while i < slots.len()
        invariant
            i <= slots@.len(),
            rows == Seq::new(slots@.len(), |i: int| slots@[i]@),
            match found {
                Some(f) => f < i && find_entry_by_path_last(
                    rows.take(i as int),
                    code_home@,
                    path@,
                ) == Some(f as int),
                None => find_entry_by_path_last(rows.take(i as int), code_home@, path@) is None,
            },
        decreases slots@.len() - i,
    {
        let resolved = resolve_entry_path(&slots[i], code_home);
        proof {
            assert(rows.take(i + 1).last() == rows[i as int]);
            assert(rows.take(i + 1).drop_last() =~= rows.take(i as int));
        }
        if str_eq_str(resolved.as_str(), path) {
            found = Some(i);
        }
        i = i + 1;
    }
    proof {
        assert(rows.take(slots@.len() as int) =~= rows);
    }
    found
}

/// Finds the last registry row with the identifier, as an index.
fn find_index_last_by_id(slots: &Vec<SlotRegistryEntry>, id: &str) -> (r: Option<usize>)
    ensures
        ({
            let rows = Seq::new(slots@.len(), |i: int| slots@[i]@);
            match r {
                Some(i) => i < slots@.len() && find_entry_last_by_id(rows, id@) == Some(i as int),
                None => find_entry_last_by_id(rows, id@) is None,
            }
        }),
{
    let ghost rows = Seq::new(slots@.len(), |i: int| slots@[i]@);
    let mut found: Option<usize> = None;
    let mut i: usize = 0;
    while i < slots.len()
        invariant
            i <= slots@.len(),
            rows == Seq::new(slots@.len(), |i: int| slots@[i]@),
            match found {
                Some(f) => f < i && find_entry_last_by_id(rows.take(i as int), id@) == Some(
                    f as int,
                ),
                None => find_entry_last_by_id(rows.take(i as int), id@) is None,
            },
        decreases slots@.len() - i,
    {
        proof {
            assert(rows.take(i + 1).last() == rows[i as int]);
            assert(rows.take(i + 1).drop_last() =~= rows.take(i as int));
        }
        if crate::text::string_eq_str(&slots[i].id, id) {
            found = Some(i);
        }
        i = i + 1;
    }
    proof {
        assert(rows.take(slots@.len() as int) =~= rows);
    }
    found
}

/// Applies the registry's label override for `id` to the account.
fn apply_label_override(reg: &SlotRegistry, id: &str, acc: &mut StoredAccount)
    ensures
        final(acc)@ == (match label_override(reg@.slots, id@) {
            Some(l) => StoredAccountV { label: Some(l), ..old(acc)@ },
            None => old(acc)@,
        }),
{
    match find_index_last_by_id(&reg.slots, id) {
        Some(i) => {
            match &reg.slots[i].label {
                Some(l) => {
                    acc.label = Some(l.clone());
                },
                None => {},
            }
        },
        None => {},
    }
}

/// Reads every discovered slot's credential file into an account, applying
/// the registry's identifier (by path) and label (by identifier) overrides,
/// appends the default slot's account when the root credential file is
/// non-empty and not already represented, and sorts by display label.
pub fn discover_slot_accounts(
    reg: &SlotRegistry,
    code_home: &str,
    scan: &Vec<ScanEntry>,
    default_auth: Option<&AuthFileData>,
) -> (r: Vec<StoredAccount>)
    requires
        scan@.len() < usize::MAX - 2,
    ensures
        ({
            let unsorted = discover_accounts_unsorted(
                reg@,
                code_home@,
                Seq::new(scan@.len(), |i: int| scan@[i]@),
                opt_auth_ref_view(default_auth),
            );
            &&& sorted_by(Seq::new(r@.len(), |i: int| r@[i]@), acct_le_fn())
            &&& Seq::new(r@.len(), |i: int| r@[i]@).to_multiset() == unsorted.to_multiset()
        }),
{
    let ghost entries = Seq::new(scan@.len(), |i: int| scan@[i]@);
    let mut pool: Vec<String> = Vec::new();
    proof {
        assert(string_views(pool@) =~= Seq::<Seq<char>>::empty());
    }
    let ds = scan_slot_dirs(scan, &mut pool);
    let ghost dsv = scan_model(entries, 0, Seq::<Seq<char>>::empty()).0;
    let mut accounts: Vec<StoredAccount> = Vec::new();
    let mut seen_ids: Vec<String> = Vec::new();
    let mut i: usize = 0;
    while i < ds.len()
        invariant
            i <= ds@.len(),
            dsv == scan_model(entries, 0, Seq::<Seq<char>>::empty()).0,
            Seq::new(ds@.len(), |k: int| ds@[k]@) == dsv,
            accounts@.len() == i,
            seen_ids@.len() == i,
            forall|k: int|
                0 <= k < i ==> accounts@[k]@ == discovered_account(reg@, code_home@, dsv[k]),
            forall|k: int|
                0 <= k < i ==> seen_ids@[k]@ == effective_slot_id(reg@, code_home@, dsv[k]),
        decreases ds@.len() - i,
    {
        let d = &ds[i];
        let id: String = match find_index_by_path_last(&reg.slots, code_home, d.path.as_str()) {
            Some(j) => reg.slots[j].id.clone(),
            None => d.id.clone(),
        };
        proof {
            assert(d@ == dsv[i as int]);
            assert(id@ == effective_slot_id(reg@, code_home@, dsv[i as int]));
        }
        let mut acc = stored_account_from_auth(
            String::from_str(id.as_str()),
            d.auth.clone(),
            Some(d.label.clone()),
            &d.components,
        );
        apply_label_override(reg, id.as_str(), &mut acc);
        accounts.push(acc);
        seen_ids.push(id);
        i = i + 1;
    }
    match default_auth {
        Some(a) => {
            if (a.tokens.is_some() || a.openai_api_key.is_some()) && !crate::slug::contains_string(
                &seen_ids,
                "slot-default",
            ) {
                let mut comps: Vec<String> = Vec::new();
                comps.push(String::from_str("default"));
                let label = slot_label(&comps);
                proof {
                    assert(strings_view(comps@) =~= seq!["default"@]);
                }
                let mut acc = stored_account_from_auth(
                    String::from_str("slot-default"),
                    a.clone(),
                    Some(label),
                    &comps,
                );
                apply_label_override(reg, "slot-default", &mut acc);
                accounts.push(acc);
                proof {
                    assert(string_views(seen_ids@) =~= Seq::new(
                        dsv.len(),
                        |k: int| effective_slot_id(reg@, code_home@, dsv[k]),
                    ));
                    assert(Seq::new(accounts@.len(), |k: int| accounts@[k]@)
                        =~= discover_accounts_unsorted(
                        reg@,
                        code_home@,
                        entries,
                        opt_auth_ref_view(default_auth),
                    ));
                }
            } else {
                proof {
                    assert(string_views(seen_ids@) =~= Seq::new(
                        dsv.len(),
                        |k: int| effective_slot_id(reg@, code_home@, dsv[k]),
                    ));
                    assert(Seq::new(accounts@.len(), |k: int| accounts@[k]@)
                        =~= discover_accounts_unsorted(
                        reg@,
                        code_home@,
                        entries,
                        opt_auth_ref_view(default_auth),
                    ));
                }
            }
        },
        None => {
            proof {
                assert(Seq::new(accounts@.len(), |k: int| accounts@[k]@)
                    =~= discover_accounts_unsorted(
                    reg@,
                    code_home@,
                    entries,
                    opt_auth_ref_view(default_auth),
                ));
            }
        },
    }
    sort_accounts(accounts)
}

} // verus!
