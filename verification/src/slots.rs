//! Account slots: filesystem-backed, independently authenticated credential
//! scopes, and the persisted registry that keeps their identifiers and
//! labels stable across rescans.
//!
//! The filesystem itself stays outside: a scan result (the directories seen
//! under the discovery roots, with any parsed credential file) is handed in
//! as data, and operations that create or delete directories report the
//! affected path back to the caller.

use vstd::prelude::*;

use crate::account::{clone_opt_string, clone_opt_tokens, opt_tokens_view, opt_view, TokenBundle,
    TokenBundleV};
use crate::text::{str_eq_str, string_eq_str, trim_str, trim_view};
use vstd::pervasive::VecAdditionalExecFns;
use vstd::string::StringExecFns;

verus! {

/// The content of one slot's credential file, as the login flow leaves it:
/// a raw API key or a session-token bundle, plus a refresh timestamp.
#[derive(Debug)]
pub struct AuthFileData {
    pub openai_api_key: Option<String>,
    pub tokens: Option<TokenBundle>,
    pub last_refresh: Option<i64>,
}

/// Mathematical view of an [`AuthFileData`].
pub struct AuthFileDataV {
    pub openai_api_key: Option<Seq<char>>,
    pub tokens: Option<TokenBundleV>,
    pub last_refresh: Option<i64>,
}

impl View for AuthFileData {
    type V = AuthFileDataV;

    open spec fn view(&self) -> AuthFileDataV {
        AuthFileDataV {
            openai_api_key: opt_view(self.openai_api_key),
            tokens: opt_tokens_view(self.tokens),
            last_refresh: self.last_refresh,
        }
    }
}

impl Clone for AuthFileData {
    fn clone(&self) -> (r: Self)
        ensures
            r@ == self@,
    {
        AuthFileData {
            openai_api_key: clone_opt_string(&self.openai_api_key),
            tokens: clone_opt_tokens(&self.tokens),
            last_refresh: self.last_refresh,
        }
    }
}

/// One directory seen while walking a discovery root: the root's absolute
/// path, the path components below it (at least one), whether a credential
/// file is present, and its parsed content when it could be read (a present
/// but unreadable file leaves `auth` empty). The caller lists directories in
/// visiting order, parents before children.
#[derive(Debug)]
pub struct ScanEntry {
    pub root: String,
    pub components: Vec<String>,
    pub has_auth_file: bool,
    pub auth: Option<AuthFileData>,
}

/// Mathematical view of a [`ScanEntry`].
pub struct ScanEntryV {
    pub root: Seq<char>,
    pub components: Seq<Seq<char>>,
    pub has_auth_file: bool,
    pub auth: Option<AuthFileDataV>,
}

/// View of an optional credential file.
pub open spec fn opt_auth_view(o: Option<AuthFileData>) -> Option<AuthFileDataV> {
    match o {
        Some(a) => Some(a@),
        None => None,
    }
}

/// Views of a vector of strings.
pub open spec fn strings_view(v: Seq<String>) -> Seq<Seq<char>> {
    Seq::new(v.len(), |i: int| v[i]@)
}

impl View for ScanEntry {
    type V = ScanEntryV;

    open spec fn view(&self) -> ScanEntryV {
        ScanEntryV {
            root: self.root@,
            components: strings_view(self.components@),
            has_auth_file: self.has_auth_file,
            auth: opt_auth_view(self.auth),
        }
    }
}

/// A discoverable credential scope: identifier, optional label, absolute
/// directory path, whether a credential file is present, and whether this is
/// the distinguished default slot bound to the installation root.
#[derive(Debug)]
pub struct AccountSlot {
    pub id: String,
    pub label: Option<String>,
    pub path: String,
    pub has_auth_file: bool,
    pub is_default: bool,
}

/// Mathematical view of an [`AccountSlot`].
pub struct AccountSlotV {
    pub id: Seq<char>,
    pub label: Option<Seq<char>>,
    pub path: Seq<char>,
    pub has_auth_file: bool,
    pub is_default: bool,
}

impl View for AccountSlot {
    type V = AccountSlotV;

    open spec fn view(&self) -> AccountSlotV {
        AccountSlotV {
            id: self.id@,
            label: opt_view(self.label),
            path: self.path@,
            has_auth_file: self.has_auth_file,
            is_default: self.is_default,
        }
    }
}

impl Clone for AccountSlot {
    fn clone(&self) -> (r: Self)
        ensures
            r@ == self@,
    {
        AccountSlot {
            id: self.id.clone(),
            label: clone_opt_string(&self.label),
            path: self.path.clone(),
            has_auth_file: self.has_auth_file,
            is_default: self.is_default,
        }
    }
}

/// One persisted registry row: identifier, label override, and the slot's
/// path, relative to the installation root when possible.
#[derive(Debug)]
pub struct SlotRegistryEntry {
    pub id: String,
    pub label: Option<String>,
    pub path: Option<String>,
}

/// Mathematical view of a [`SlotRegistryEntry`].
pub struct SlotRegistryEntryV {
    pub id: Seq<char>,
    pub label: Option<Seq<char>>,
    pub path: Option<Seq<char>>,
}

impl View for SlotRegistryEntry {
    type V = SlotRegistryEntryV;

    open spec fn view(&self) -> SlotRegistryEntryV {
        SlotRegistryEntryV {
            id: self.id@,
            label: opt_view(self.label),
            path: opt_view(self.path),
        }
    }
}

impl Clone for SlotRegistryEntry {
    fn clone(&self) -> (r: Self)
        ensures
            r@ == self@,
    {
        SlotRegistryEntry {
            id: self.id.clone(),
            label: clone_opt_string(&self.label),
            path: clone_opt_string(&self.path),
        }
    }
}

/// The persisted identifier/label registry: a schema version and the rows.
#[derive(Debug)]
pub struct SlotRegistry {
    pub version: u32,
    pub slots: Vec<SlotRegistryEntry>,
}

/// Mathematical view of a [`SlotRegistry`].
pub struct SlotRegistryV {
    pub version: u32,
    pub slots: Seq<SlotRegistryEntryV>,
}

impl View for SlotRegistry {
    type V = SlotRegistryV;

    open spec fn view(&self) -> SlotRegistryV {
        SlotRegistryV {
            version: self.version,
            slots: Seq::new(self.slots@.len(), |i: int| self.slots@[i]@),
        }
    }
}

impl SlotRegistry {
    /// An empty registry, the value an absent registry document denotes.
    pub fn new() -> (r: Self)
        ensures
            r@.version == 1,
            r@.slots =~= Seq::<SlotRegistryEntryV>::empty(),
    {
        SlotRegistry { version: 1, slots: Vec::new() }
    }
}

/// The fixed identifier of the synthetic default slot.
pub open spec fn default_slot_id_view() -> Seq<char> {
    "slot-default"@
}

/// Decides whether an identifier names the default slot.
pub fn is_default_slot_id(id: &str) -> (r: bool)
    ensures
        r == (id@ == default_slot_id_view()),
{
    str_eq_str(id, "slot-default")
}

/// Sequences joined with a separator.
pub open spec fn join_sep(parts: Seq<Seq<char>>, sep: Seq<char>) -> Seq<char>
    decreases parts.len(),
{
    if parts.len() == 0 {
        Seq::<char>::empty()
    } else if parts.len() == 1 {
        parts[0]
    } else {
        join_sep(parts.drop_last(), sep) + sep + parts.last()
    }
}

/// Joins the strings of `parts` with the separator.
pub fn join_strings(parts: &Vec<String>, sep: &str) -> (r: String)
    ensures
        r@ == join_sep(strings_view(parts@), sep@),
{
    let mut out = String::new();
    let mut i: usize = 0;
    while i < parts.len()
        invariant
            i <= parts@.len(),
            out@ == join_sep(strings_view(parts@).take(i as int), sep@),
        decreases parts@.len() - i,
    {
        if i > 0 {
            out.append(sep);
        }
        out.append(parts[i].as_str());
        proof {
            let views = strings_view(parts@);
            assert(views.take(i + 1).drop_last() =~= views.take(i as int));
            assert(views.take(i + 1).last() == views[i as int]);
            if i == 0 {
                assert(out@ =~= join_sep(views.take(1), sep@));
            }
        }
        i = i + 1;
    }
    proof {
        assert(strings_view(parts@).take(parts@.len() as int) =~= strings_view(parts@));
    }
    out
}

/// The display label synthesized from path components: "Slot a / b", or
/// "account" when there are none.
pub open spec fn slot_label_view(components: Seq<Seq<char>>) -> Seq<char> {
    if components.len() == 0 {
        "account"@
    } else {
        "Slot "@ + join_sep(components, " / "@)
    }
}

/// Executable counterpart of [`slot_label_view`].
pub fn slot_label(components: &Vec<String>) -> (r: String)
    ensures
        r@ == slot_label_view(strings_view(components@)),
{
    if components.len() == 0 {
        String::from_str("account")
    } else {
        let mut out = String::from_str("Slot ");
        let joined = join_strings(components, " / ");
        out.append(joined.as_str());
        out
    }
}

/// A user-supplied label cleaned for storage: trimmed, with an empty result
/// meaning no label at all.
pub open spec fn clean_label_view(label: Option<Seq<char>>) -> Option<Seq<char>> {
    match label {
        None => None,
        Some(s) => if trim_view(s).len() == 0 {
            None
        } else {
            Some(trim_view(s))
        },
    }
}

/// Executable counterpart of [`clean_label_view`].
pub fn clean_label(label: Option<&str>) -> (r: Option<String>)
    ensures
        opt_view(r) == clean_label_view(match label {
            Some(s) => Some(s@),
            None => None,
        }),
{
    match label {
        None => None,
        Some(s) => {
            let t = trim_str(s);
            if t.unicode_len() == 0 {
                None
            } else {
                Some(t)
            }
        },
    }
}

/// Whether the sequence holds the character.
pub open spec fn seq_has_char(s: Seq<char>, c: char) -> bool {
    exists|i: int| 0 <= i < s.len() && s[i] == c
}

/// Whether the string holds the character.
pub fn str_has_char(s: &str, c: char) -> (r: bool)
    ensures
        r == seq_has_char(s@, c),
{
    let n = s.unicode_len();
    let mut i: usize = 0;
    while i < n
        invariant
            i <= n,
            n == s@.len(),
            forall|j: int| 0 <= j < i ==> s@[j] != c,
        decreases n - i,
    {
        if s.get_char(i) == c {
            proof {
                assert(s@[i as int] == c);
            }
            return true;
        }
        i = i + 1;
    }
    false
}

/// A path joined under a base directory.
pub open spec fn path_join(base: Seq<char>, rel: Seq<char>) -> Seq<char> {
    base + seq!['/'] + rel
}

/// Executable counterpart of [`path_join`].
pub fn path_join_exec(base: &str, rel: &str) -> (r: String)
    ensures
        r@ == path_join(base@, rel@),
{
    let mut out = String::from_str(base);
    out.append("/");
    out.append(rel);
    proof {
        reveal_strlit("/");
        assert(out@ =~= path_join(base@, rel@));
    }
    out
}

/// The absolute path a registry row resolves to: its stored path (or, when
/// absent, its identifier), taken as absolute when it starts with a slash or
/// holds a colon, as the installation root itself when it is ".", and as
/// relative to the installation root otherwise.
pub open spec fn resolve_entry_path_view(e: SlotRegistryEntryV, code_home: Seq<char>) -> Seq<
    char,
> {
    let raw = match e.path {
        Some(p) => p,
        None => e.id,
    };
    if (raw.len() > 0 && raw[0] == '/') || seq_has_char(raw, ':') {
        raw
    } else if raw == "."@ {
        code_home
    } else {
        path_join(code_home, raw)
    }
}

/// Executable counterpart of [`resolve_entry_path_view`].
pub fn resolve_entry_path(e: &SlotRegistryEntry, code_home: &str) -> (r: String)
    ensures
        r@ == resolve_entry_path_view(e@, code_home@),
{
    let raw: &String = match &e.path {
        Some(p) => p,
        None => &e.id,
    };
    let raw_str = raw.as_str();
    let n = raw_str.unicode_len();
    let absolute = (n > 0 && raw_str.get_char(0) == '/') || str_has_char(raw_str, ':');
    if absolute {
        String::from_str(raw_str)
    } else if str_eq_str(raw_str, ".") {
        String::from_str(code_home)
    } else {
        path_join_exec(code_home, raw_str)
    }
}

/// A path made relative to the installation root where possible: the root
/// itself becomes ".", a path under the root loses the root prefix, and any
/// other path is kept as it is.
pub open spec fn relativize_path_view(code_home: Seq<char>, path: Seq<char>) -> Seq<char> {
    if path == code_home {
        "."@
    } else if path.len() > code_home.len() + 1 && path.take(code_home.len() as int + 1)
        == code_home + seq!['/'] {
        path.skip(code_home.len() as int + 1)
    } else {
        path
    }
}

/// Executable counterpart of [`relativize_path_view`].
pub fn relativize_path(code_home: &str, path: &str) -> (r: String)
    ensures
        r@ == relativize_path_view(code_home@, path@),
{
    let n = code_home.unicode_len();
    let m = path.unicode_len();
    if str_eq_str(path, code_home) {
        return String::from_str(".");
    }
    if m > n && m - n > 1 {
        let prefix = path.substring_char(0, n + 1);
        let wanted = path_join_exec(code_home, "");
        proof {
            reveal_strlit("");
            assert((code_home@ + seq!['/']).len() == n + 1);
            assert(wanted@ =~= code_home@ + seq!['/']);
        }
        if str_eq_str(prefix, wanted.as_str()) {
            let rest = path.substring_char(n + 1, m);
            proof {
                assert(rest@ =~= path@.skip(code_home@.len() as int + 1));
            }
            return rest.to_owned();
        }
    }
    String::from_str(path)
}

/// Index of the first registry row with the given identifier.
pub open spec fn find_entry(slots: Seq<SlotRegistryEntryV>, id: Seq<char>) -> Option<int>
    decreases slots.len(),
{
    if slots.len() == 0 {
        None
    } else if slots[0].id == id {
        Some(0)
    } else {
        match find_entry(slots.drop_first(), id) {
            Some(j) => Some(j + 1),
            None => None,
        }
    }
}

pub proof fn lemma_find_entry(slots: Seq<SlotRegistryEntryV>, id: Seq<char>)
    ensures
        match find_entry(slots, id) {
            Some(i) => 0 <= i < slots.len() && slots[i].id == id && forall|j: int|
                0 <= j < i ==> slots[j].id != id,
            None => forall|j: int| 0 <= j < slots.len() ==> slots[j].id != id,
        },
    decreases slots.len(),
{
    if slots.len() > 0 && slots[0].id != id {
        lemma_find_entry(slots.drop_first(), id);
        assert forall|j: int| 1 <= j < slots.len() implies slots[j] == slots.drop_first()[j
            - 1] by {}
    }
}

/// Finds the index of the first registry row with the given identifier.
fn find_entry_index(slots: &Vec<SlotRegistryEntry>, id: &str) -> (r: Option<usize>)
    ensures
        match r {
            Some(i) => i < slots@.len() && find_entry(
                Seq::new(slots@.len(), |k: int| slots@[k]@),
                id@,
            ) == Some(i as int),
            None => find_entry(Seq::new(slots@.len(), |k: int| slots@[k]@), id@) is None,
        },
{
    let ghost rows = Seq::new(slots@.len(), |k: int| slots@[k]@);
    let mut i: usize = 0;
    loop
        invariant
            i <= slots@.len(),
            rows == Seq::new(slots@.len(), |k: int| slots@[k]@),
            forall|j: int| 0 <= j < i ==> rows[j].id != id@,
        ensures
            match find_entry(rows, id@) {
                Some(k) => i == k && k < rows.len() && rows[k].id == id@,
                None => i == rows.len(),
            },
        decreases slots@.len() - i,
    {
        if i >= slots.len() {
            proof {
                lemma_find_entry(rows, id@);
                if find_entry(rows, id@) is Some {
                    let k = find_entry(rows, id@)->Some_0;
                    assert(rows[k].id != id@);
                }
            }
            break ;
        }
        if string_eq_str(&slots[i].id, id) {
            proof {
                assert(rows[i as int] == slots@[i as int]@);
                lemma_find_entry(rows, id@);
                match find_entry(rows, id@) {
                    Some(k) => {
                        if k < i {
                            assert(rows[k].id != id@);
                        }
                        if k > i {
                            assert(rows[i as int].id != id@);
                        }
                    },
                    None => {
                        assert(rows[i as int].id != id@);
                    },
                }
            }
            break ;
        }
        i = i + 1;
    }
    if i < slots.len() {
        Some(i)
    } else {
        None
    }
}

/// Renaming on the model: the default slot and unknown identifiers are
/// refused; otherwise only the row's label changes, and the updated slot
/// (with its resolved path) is reported.
pub open spec fn rename_model(
    reg: SlotRegistryV,
    code_home: Seq<char>,
    slot_id: Seq<char>,
    new_label: Option<Seq<char>>,
) -> (SlotRegistryV, Option<AccountSlotV>) {
    if slot_id == default_slot_id_view() {
        (reg, None)
    } else {
        match find_entry(reg.slots, slot_id) {
            None => (reg, None),
            Some(i) => {
                let updated = SlotRegistryEntryV {
                    label: clean_label_view(new_label),
                    ..reg.slots[i]
                };
                let slot = AccountSlotV {
                    id: updated.id,
                    label: updated.label,
                    path: resolve_entry_path_view(updated, code_home),
                    has_auth_file: false,
                    is_default: false,
                };
                (SlotRegistryV { slots: reg.slots.update(i, updated), ..reg }, Some(slot))
            },
        }
    }
}

/// View of an optional slot.
pub open spec fn opt_slot_view(o: Option<AccountSlot>) -> Option<AccountSlotV> {
    match o {
        Some(s) => Some(s@),
        None => None,
    }
}

/// Updates a slot's label override. The default slot cannot be renamed; an
/// unknown identifier changes nothing. The returned slot reports the row as
/// updated; whether a credential file is present is not re-examined here, so
/// the flag is reported unset.
pub fn rename_slot(
    reg: &mut SlotRegistry,
    code_home: &str,
    slot_id: &str,
    new_label: Option<&str>,
) -> (r: Option<AccountSlot>)
    ensures
        (final(reg)@, opt_slot_view(r)) == rename_model(
            old(reg)@,
            code_home@,
            slot_id@,
            match new_label {
                Some(s) => Some(s@),
                None => None,
            },
        ),
{
    if is_default_slot_id(slot_id) {
        return None;
    }
    match find_entry_index(&reg.slots, slot_id) {
        None => None,
        Some(i) => {
            let cleaned = clean_label(new_label);
            let mut updated = reg.slots[i].clone();
            updated.label = cleaned;
            let path = resolve_entry_path(&updated, code_home);
            let slot = AccountSlot {
                id: updated.id.clone(),
                label: clone_opt_string(&updated.label),
                path: path,
                has_auth_file: false,
                is_default: false,
            };
            crate::slots::set_entry(&mut reg.slots, i, updated);
            proof {
                assert(final(reg)@.slots =~= rename_model(
                    old(reg)@,
                    code_home@,
                    slot_id@,
                    match new_label {
                        Some(s) => Some(s@),
                        None => None,
                    },
                ).0.slots);
            }
            Some(slot)
        },
    }
}

/// Replaces one row of the registry vector.
pub fn set_entry(slots: &mut Vec<SlotRegistryEntry>, i: usize, e: SlotRegistryEntry)
    requires
        i < old(slots)@.len(),
    ensures
        final(slots)@.len() == old(slots)@.len(),
        final(slots)@[i as int]@ == e@,
        forall|j: int|
            0 <= j < old(slots)@.len() && j != i ==> final(slots)@[j]@ == old(slots)@[j]@,
{
    slots.set(i, e);
}

/// Removal on the model: the default slot and unknown identifiers are
/// refused; otherwise the row disappears and the removed slot, with the
/// resolved path whose directory the caller should delete, is reported.
pub open spec fn remove_slot_model(
    reg: SlotRegistryV,
    code_home: Seq<char>,
    slot_id: Seq<char>,
) -> (SlotRegistryV, Option<AccountSlotV>) {
    if slot_id == default_slot_id_view() {
        (reg, None)
    } else {
        match find_entry(reg.slots, slot_id) {
            None => (reg, None),
            Some(i) => {
                let e = reg.slots[i];
                let slot = AccountSlotV {
                    id: e.id,
                    label: e.label,
                    path: resolve_entry_path_view(e, code_home),
                    has_auth_file: false,
                    is_default: false,
                };
                (SlotRegistryV { slots: reg.slots.remove(i), ..reg }, Some(slot))
            },
        }
    }
}

/// Deletes a slot's registry row. The default slot cannot be removed. The
/// caller is expected to delete the directory at the returned path
/// (best-effort; the registry removal stands even if that fails).
pub fn remove_slot(reg: &mut SlotRegistry, code_home: &str, slot_id: &str) -> (r: Option<
    AccountSlot,
>)
    ensures
        (final(reg)@, opt_slot_view(r)) == remove_slot_model(old(reg)@, code_home@, slot_id@),
{
    if is_default_slot_id(slot_id) {
        return None;
    }
    match find_entry_index(&reg.slots, slot_id) {
        None => None,
        Some(i) => {
            let e = reg.slots.remove(i);
            proof {
                assert(reg@.slots =~= old(reg)@.slots.remove(i as int));
            }
            let path = resolve_entry_path(&e, code_home);
            Some(
                AccountSlot {
                    id: e.id,
                    label: e.label,
                    path: path,
                    has_auth_file: false,
                    is_default: false,
                },
            )
        },
    }
}

/// The directory that holds a slot's credential file: the installation root
/// for the default slot, the row's resolved path for a registered slot, and
/// the identifier taken as a directory name under the root otherwise. The
/// caller creates the directory if it is missing.
pub open spec fn slot_auth_dir_model(
    reg: SlotRegistryV,
    code_home: Seq<char>,
    slot_id: Seq<char>,
) -> Seq<char> {
    if slot_id == default_slot_id_view() {
        code_home
    } else {
        match find_entry(reg.slots, slot_id) {
            Some(i) => resolve_entry_path_view(reg.slots[i], code_home),
            None => path_join(code_home, slot_id),
        }
    }
}

/// Executable counterpart of [`slot_auth_dir_model`].
pub fn slot_auth_dir(reg: &SlotRegistry, code_home: &str, slot_id: &str) -> (r: String)
    ensures
        r@ == slot_auth_dir_model(reg@, code_home@, slot_id@),
{
    if is_default_slot_id(slot_id) {
        return String::from_str(code_home);
    }
    match find_entry_index(&reg.slots, slot_id) {
        Some(i) => resolve_entry_path(&reg.slots[i], code_home),
        None => path_join_exec(code_home, slot_id),
    }
}

/// Law: the default slot is protected. Renaming or removing the default
/// identifier changes nothing and reports nothing, whatever the registry
/// holds.
pub proof fn lemma_default_slot_protected(
    reg: SlotRegistryV,
    code_home: Seq<char>,
    new_label: Option<Seq<char>>,
)
    ensures
        rename_model(reg, code_home, default_slot_id_view(), new_label) == (reg, None::<
            AccountSlotV,
        >),
        remove_slot_model(reg, code_home, default_slot_id_view()) == (reg, None::<AccountSlotV>),
{
}

} // verus!
