//! Slot identifier slugs: sanitized path components, hyphen-joined slugs
//! with the slot prefix, and collision disambiguation by numeric suffix.

use vstd::prelude::*;

use crate::text::{is_alnum_char, is_ascii_alnum, lower_char, str_eq_str, string_from_ascii,
    to_lower_char};
use vstd::string::StringExecFns;

verus! {

/// One sanitizing step: ASCII letters and digits are kept lowercased, any
/// other character becomes a hyphen unless one was just written.
pub open spec fn sanitize_step(acc: Seq<char>, c: char) -> Seq<char> {
    if is_alnum_char(c) {
        acc.push(lower_char(c))
    } else if acc.len() > 0 && acc.last() == '-' {
        acc
    } else {
        acc.push('-')
    }
}

/// The sanitizing fold over a whole component, before end trimming.
pub open spec fn sanitize_steps(s: Seq<char>) -> Seq<char>
    decreases s.len(),
{
    if s.len() == 0 {
        Seq::<char>::empty()
    } else {
        sanitize_step(sanitize_steps(s.drop_last()), s.last())
    }
}

/// Number of leading hyphens.
pub open spec fn hyphen_lo(s: Seq<char>) -> int
    decreases s.len(),
{
    if s.len() == 0 {
        0
    } else if s[0] != '-' {
        0
    } else {
        1 + hyphen_lo(s.drop_first())
    }
}

/// Index one past the last non-hyphen character.
pub open spec fn hyphen_hi(s: Seq<char>) -> int
    decreases s.len(),
{
    if s.len() == 0 {
        0
    } else if s[s.len() - 1] != '-' {
        s.len() as int
    } else {
        hyphen_hi(s.drop_last())
    }
}

/// The sequence with leading and trailing hyphens removed.
pub open spec fn hyphen_trim_view(s: Seq<char>) -> Seq<char> {
    if hyphen_lo(s) <= hyphen_hi(s) {
        s.subrange(hyphen_lo(s), hyphen_hi(s))
    } else {
        Seq::<char>::empty()
    }
}

/// A sanitized slug component: lowercased alphanumerics with non-alphanumeric
/// runs collapsed to single hyphens, and hyphens trimmed from both ends.
pub open spec fn sanitize_component_view(s: Seq<char>) -> Seq<char> {
    hyphen_trim_view(sanitize_steps(s))
}

proof fn lemma_hyphen_lo(s: Seq<char>)
    ensures
        0 <= hyphen_lo(s) <= s.len(),
        forall|i: int| 0 <= i < hyphen_lo(s) ==> s[i] == '-',
        hyphen_lo(s) < s.len() ==> s[hyphen_lo(s)] != '-',
    decreases s.len(),
{
    if s.len() > 0 && s[0] == '-' {
        lemma_hyphen_lo(s.drop_first());
        assert forall|i: int| 0 <= i < hyphen_lo(s) implies s[i] == '-' by {
            if i > 0 {
                assert(s[i] == s.drop_first()[i - 1]);
            }
        }
        if hyphen_lo(s) < s.len() {
            assert(s[hyphen_lo(s)] == s.drop_first()[hyphen_lo(s.drop_first())]);
        }
    }
}

proof fn lemma_hyphen_hi(s: Seq<char>)
    ensures
        0 <= hyphen_hi(s) <= s.len(),
        forall|i: int| hyphen_hi(s) <= i < s.len() ==> s[i] == '-',
        hyphen_hi(s) > 0 ==> s[hyphen_hi(s) - 1] != '-',
    decreases s.len(),
{
    if s.len() > 0 && s[s.len() - 1] == '-' {
        lemma_hyphen_hi(s.drop_last());
        assert forall|i: int| hyphen_hi(s) <= i < s.len() implies s[i] == '-' by {
            if i < s.len() - 1 {
                assert(s[i] == s.drop_last()[i]);
            }
        }
        if hyphen_hi(s) > 0 {
            assert(s[hyphen_hi(s) - 1] == s.drop_last()[hyphen_hi(s.drop_last()) - 1]);
        }
    }
}

/// A character in the ASCII range.
pub open spec fn ascii_char(c: char) -> bool {
    (c as u32) < 0x80
}

/// All characters a sanitizing fold can produce are ASCII.
proof fn lemma_sanitize_steps_ascii(s: Seq<char>)
    ensures
        forall|i: int| 0 <= i < sanitize_steps(s).len() ==> ascii_char(sanitize_steps(s)[i]),
    decreases s.len(),
{
    if s.len() > 0 {
        lemma_sanitize_steps_ascii(s.drop_last());
        let prev = sanitize_steps(s.drop_last());
        let c = s.last();
        if is_alnum_char(c) {
            lemma_lower_alnum_ascii(c);
            assert(sanitize_steps(s) == prev.push(lower_char(c)));
            assert forall|i: int|
                0 <= i < sanitize_steps(s).len() implies ascii_char(sanitize_steps(s)[i]) by {
                if i < prev.len() {
                    assert(sanitize_steps(s)[i] == prev[i]);
                }
            }
        } else if prev.len() > 0 && prev.last() == '-' {
        } else {
            assert(sanitize_steps(s) == prev.push('-'));
            assert forall|i: int|
                0 <= i < sanitize_steps(s).len() implies ascii_char(sanitize_steps(s)[i]) by {
                if i < prev.len() {
                    assert(sanitize_steps(s)[i] == prev[i]);
                }
            }
        }
    }
}

/// The characters of a lowercased alphanumeric are ASCII and survive the
/// round trip through a byte.
proof fn lemma_lower_alnum_ascii(c: char)
    requires
        is_alnum_char(c),
    ensures
        (lower_char(c) as u32) < 0x80,
        ((lower_char(c) as u8) as char) == lower_char(c),
{
}

/// Sanitizes one path component into slug form.
pub fn sanitize_slot_component(component: &str) -> (r: String)
    ensures
        r@ == sanitize_component_view(component@),
{
    let n = component.unicode_len();
    let mut bytes: Vec<u8> = Vec::new();
    let mut i: usize = 0;
    while i < n
        invariant
            i <= n,
            n == component@.len(),
            Seq::new(bytes@.len(), |k: int| bytes@[k] as char) =~= sanitize_steps(
                component@.take(i as int),
            ),
            forall|k: int| 0 <= k < bytes@.len() ==> bytes@[k] < 0x80,
        decreases n - i,
    {
        let c = component.get_char(i);
        proof {
            assert(component@.take(i + 1).drop_last() =~= component@.take(i as int));
            assert(component@.take(i + 1).last() == c);
        }
        if is_ascii_alnum(c) {
            let lc = to_lower_char(c);
            proof {
                lemma_lower_alnum_ascii(c);
            }
            bytes.push(lc as u8);
            proof {
                assert(Seq::new(bytes@.len(), |k: int| bytes@[k] as char) =~= sanitize_steps(
                    component@.take(i + 1),
                ));
            }
        } else {
            let m = bytes.len();
            if m > 0 && bytes[m - 1] == 45 {
                proof {
                    assert(sanitize_steps(component@.take(i as int)).last() == '-');
                    assert(Seq::new(bytes@.len(), |k: int| bytes@[k] as char) =~= sanitize_steps(
                        component@.take(i + 1),
                    ));
                }
            } else {
                proof {
                    if m > 0 {
                        assert(sanitize_steps(component@.take(i as int)).last() == (bytes@[m - 1]
                            as char));
                        assert(bytes@[m - 1] != 45 ==> (bytes@[m - 1] as char) != '-');
                    }
                }
                bytes.push(45);
                proof {
                    assert(Seq::new(bytes@.len(), |k: int| bytes@[k] as char) =~= sanitize_steps(
                        component@.take(i + 1),
                    ));
                }
            }
        }
        i = i + 1;
    }
    proof {
        assert(component@.take(n as int) =~= component@);
    }
    let ghost folded = sanitize_steps(component@);
    proof {
        lemma_hyphen_lo(folded);
        lemma_hyphen_hi(folded);
    }
    // Trim hyphens from both ends of the byte form.
    let m = bytes.len();
    let mut lo: usize = 0;
    while lo < m && bytes[lo] == 45
        invariant
            lo <= m,
            m == bytes@.len(),
            Seq::new(bytes@.len(), |k: int| bytes@[k] as char) =~= folded,
            forall|k: int| 0 <= k < bytes@.len() ==> bytes@[k] < 0x80,
            forall|k: int| 0 <= k < lo ==> folded[k] == '-',
        decreases m - lo,
    {
        proof {
            assert(folded[lo as int] == (bytes@[lo as int] as char));
        }
        lo = lo + 1;
    }
    let mut hi: usize = m;
    while hi > lo && bytes[hi - 1] == 45
        invariant
            lo <= hi <= m,
            m == bytes@.len(),
            Seq::new(bytes@.len(), |k: int| bytes@[k] as char) =~= folded,
            forall|k: int| 0 <= k < bytes@.len() ==> bytes@[k] < 0x80,
            forall|k: int| 0 <= k < lo ==> folded[k] == '-',
            lo == m || folded[lo as int] != '-',
            forall|k: int| hi <= k < m ==> folded[k] == '-',
        decreases hi,
    {
        proof {
            assert(folded[hi - 1] == (bytes@[hi - 1] as char));
        }
        hi = hi - 1;
    }
    proof {
        if lo < m {
            assert(folded[lo as int] == (bytes@[lo as int] as char));
        }
        if hi > lo {
            assert(folded[hi - 1] == (bytes@[hi - 1] as char));
        }
        if hyphen_lo(folded) <= hyphen_hi(folded) {
            assert(lo == hyphen_lo(folded)) by {
                if lo < hyphen_lo(folded) {
                    assert(folded[lo as int] == '-');
                }
                if lo > hyphen_lo(folded) {
                    assert(folded[hyphen_lo(folded)] == '-');
                    assert(folded[hyphen_lo(folded)] != '-');
                }
            }
            assert(hi == hyphen_hi(folded)) by {
                if hi < hyphen_hi(folded) {
                    assert(folded[(hyphen_hi(folded) - 1) as int] == '-');
                } else if hi > hyphen_hi(folded) {
                    assert(folded[(hi - 1) as int] == '-');
                    assert(hi - 1 >= hyphen_hi(folded));
                    assert(folded[(hi - 1) as int] != '-');
                }
            }
        } else {
            assert(hyphen_lo(folded) > 0);
            assert(lo == m) by {
                if lo < m {
                    assert(folded[lo as int] != '-');
                    if lo < hyphen_lo(folded) {
                        assert(folded[lo as int] == '-');
                    } else {
                        assert(hyphen_lo(folded) < folded.len());
                        assert(folded[hyphen_lo(folded)] != '-');
                        assert(hyphen_hi(folded) >= hyphen_lo(folded) + 1) by {
                            if hyphen_hi(folded) < hyphen_lo(folded) + 1 {
                                assert(folded[hyphen_lo(folded)] == '-');
                            }
                        }
                    }
                }
            }
            assert(lo == hi);
        }
    }
    let mut out: Vec<u8> = Vec::new();
    let mut j: usize = lo;
    while j < hi
        invariant
            lo <= j <= hi <= m,
            m == bytes@.len(),
            out@.len() == j - lo,
            forall|k: int| 0 <= k < out@.len() ==> out@[k] == bytes@[lo + k],
            forall|k: int| 0 <= k < bytes@.len() ==> bytes@[k] < 0x80,
        decreases hi - j,
    {
        out.push(bytes[j]);
        j = j + 1;
    }
    let r = string_from_ascii(out);
    proof {
        assert(r@ =~= hyphen_trim_view(folded));
    }
    r
}

/// The sanitized, nonempty slug parts of a component list, in order.
pub open spec fn slug_parts(comps: Seq<Seq<char>>) -> Seq<Seq<char>>
    decreases comps.len(),
{
    if comps.len() == 0 {
        Seq::<Seq<char>>::empty()
    } else {
        let rest = slug_parts(comps.drop_last());
        let sc = sanitize_component_view(comps.last());
        if sc.len() == 0 {
            rest
        } else {
            rest.push(sc)
        }
    }
}

/// A slot identifier slug: the sanitized components joined with hyphens
/// under the slot prefix, or a fixed fallback when nothing survives
/// sanitizing.
pub open spec fn make_slot_id_view(comps: Seq<Seq<char>>) -> Seq<char> {
    let parts = slug_parts(comps);
    if parts.len() == 0 {
        "slot-"@ + "slot"@
    } else {
        "slot-"@ + crate::slots::join_sep(parts, seq!['-'])
    }
}

/// Executable counterpart of [`make_slot_id_view`].
pub fn make_slot_id_slug(components: &Vec<String>) -> (r: String)
    ensures
        r@ == make_slot_id_view(crate::slots::strings_view(components@)),
{
    let ghost comps = crate::slots::strings_view(components@);
    let mut parts: Vec<String> = Vec::new();
    let mut i: usize = 0;
    while i < components.len()
        invariant
            i <= components@.len(),
            comps == crate::slots::strings_view(components@),
            crate::slots::strings_view(parts@) =~= slug_parts(comps.take(i as int)),
        decreases components@.len() - i,
    {
        let sc = sanitize_slot_component(components[i].as_str());
        proof {
            assert(comps.take(i + 1).drop_last() =~= comps.take(i as int));
            assert(comps.take(i + 1).last() == comps[i as int]);
        }
        if sc.unicode_len() > 0 {
            parts.push(sc);
        }
        proof {
            assert(crate::slots::strings_view(parts@) =~= slug_parts(comps.take(i + 1)));
        }
        i = i + 1;
    }
    proof {
        assert(comps.take(comps.len() as int) =~= comps);
    }
    let mut out = String::from_str("slot-");
    if parts.len() == 0 {
        out.append("slot");
    } else {
        let joined = crate::slots::join_strings(&parts, "-");
        proof {
            reveal_strlit("-");
            assert("-"@ =~= seq!['-']);
        }
        out.append(joined.as_str());
    }
    out
}

/// Digit characters.
pub open spec fn digit_char(d: int) -> char {
    if d == 0 {
        '0'
    } else if d == 1 {
        '1'
    } else if d == 2 {
        '2'
    } else if d == 3 {
        '3'
    } else if d == 4 {
        '4'
    } else if d == 5 {
        '5'
    } else if d == 6 {
        '6'
    } else if d == 7 {
        '7'
    } else if d == 8 {
        '8'
    } else {
        '9'
    }
}

/// Decimal notation of a natural number.
pub open spec fn dec_view(n: int) -> Seq<char>
    decreases n,
{
    if n < 10 {
        seq![digit_char(n)]
    } else {
        dec_view(n / 10).push(digit_char(n % 10))
    }
}

proof fn lemma_dec_len(n: int)
    ensures
        dec_view(n).len() >= 1,
    decreases n,
{
    if n >= 10 {
        lemma_dec_len(n / 10);
    }
}

/// Distinct numbers have distinct decimal notations.
proof fn lemma_dec_injective(a: int, b: int)
    requires
        a >= 0,
        b >= 0,
        dec_view(a) == dec_view(b),
    ensures
        a == b,
    decreases a + b,
{
    lemma_dec_len(a);
    lemma_dec_len(b);
    if a < 10 && b < 10 {
        assert(dec_view(a)[0] == digit_char(a));
        assert(dec_view(b)[0] == digit_char(b));
    } else if a < 10 && b >= 10 {
        lemma_dec_len(b / 10);
        assert(dec_view(b).len() >= 2);
    } else if a >= 10 && b < 10 {
        lemma_dec_len(a / 10);
        assert(dec_view(a).len() >= 2);
    } else {
        assert(dec_view(a).last() == digit_char(a % 10));
        assert(dec_view(b).last() == digit_char(b % 10));
        assert(a % 10 == b % 10);
        assert(dec_view(a).drop_last() =~= dec_view(a / 10));
        assert(dec_view(b).drop_last() =~= dec_view(b / 10));
        lemma_dec_injective(a / 10, b / 10);
    }
}

/// One digit as a string slice.
fn digit_str(d: usize) -> (r: &'static str)
    requires
        d < 10,
    ensures
        r@ =~= seq![digit_char(d as int)],
{
    proof {
        reveal_strlit("0");
        reveal_strlit("1");
        reveal_strlit("2");
        reveal_strlit("3");
        reveal_strlit("4");
        reveal_strlit("5");
        reveal_strlit("6");
        reveal_strlit("7");
        reveal_strlit("8");
        reveal_strlit("9");
    }
    if d == 0 {
        "0"
    } else if d == 1 {
        "1"
    } else if d == 2 {
        "2"
    } else if d == 3 {
        "3"
    } else if d == 4 {
        "4"
    } else if d == 5 {
        "5"
    } else if d == 6 {
        "6"
    } else if d == 7 {
        "7"
    } else if d == 8 {
        "8"
    } else {
        "9"
    }
}

/// Decimal notation of `n`.
pub fn dec_string(n: usize) -> (r: String)
    ensures
        r@ == dec_view(n as int),
    decreases n,
{
    if n < 10 {
        String::from_str(digit_str(n))
    } else {
        let mut s = dec_string(n / 10);
        s.append(digit_str(n % 10));
        proof {
            assert(s@ =~= dec_view(n as int));
        }
        s
    }
}

/// The disambiguated identifier tried at collision counter `k`.
pub open spec fn candidate_id(base: Seq<char>, k: int) -> Seq<char> {
    base + seq!['-'] + dec_view(k)
}

/// Whether a sequence of strings holds the given character sequence.
pub open spec fn seq_has_str(ss: Seq<Seq<char>>, x: Seq<char>) -> bool {
    exists|i: int| 0 <= i < ss.len() && ss[i] == x
}

/// Views of a vector of strings.
pub open spec fn string_views(v: Seq<String>) -> Seq<Seq<char>> {
    Seq::new(v.len(), |i: int| v[i]@)
}

/// Whether the vector holds a string equal to `x`.
pub fn contains_string(v: &Vec<String>, x: &str) -> (r: bool)
    ensures
        r == seq_has_str(string_views(v@), x@),
{
    let mut i: usize = 0;
    while i < v.len()
        invariant
            i <= v@.len(),
            forall|j: int| 0 <= j < i ==> string_views(v@)[j] != x@,
        decreases v@.len() - i,
    {
        if str_eq_str(v[i].as_str(), x) {
            proof {
                assert(string_views(v@)[i as int] == x@);
            }
            return true;
        }
        i = i + 1;
    }
    false
}

proof fn lemma_candidate_injective(base: Seq<char>, k1: int, k2: int)
    requires
        k1 >= 0,
        k2 >= 0,
        candidate_id(base, k1) == candidate_id(base, k2),
    ensures
        k1 == k2,
{
    let c1 = candidate_id(base, k1);
    let c2 = candidate_id(base, k2);
    assert(dec_view(k1) =~= c1.skip(base.len() as int + 1));
    assert(dec_view(k2) =~= c2.skip(base.len() as int + 1));
    lemma_dec_injective(k1, k2);
}

/// If the counters `2..=k` all name identifiers already present, the pool
/// holds at least `k - 1` distinct values.
proof fn lemma_candidates_bound(base: Seq<char>, pool: Seq<Seq<char>>, k: int)
    requires
        k >= 2,
        forall|j: int| 2 <= j <= k ==> seq_has_str(pool, candidate_id(base, j)),
    ensures
        k - 1 <= pool.len(),
{
    broadcast use vstd::seq_lib::seq_to_set_is_finite;
    broadcast use vstd::set::group_set_axioms;

    let cs = Seq::new((k - 1) as nat, |i: int| candidate_id(base, i + 2));
    assert(cs.no_duplicates()) by {
        assert forall|i: int, j: int|
            0 <= i < cs.len() && 0 <= j < cs.len() && i != j implies cs[i] != cs[j] by {
            if cs[i] == cs[j] {
                lemma_candidate_injective(base, i + 2, j + 2);
            }
        }
    }
    cs.unique_seq_to_set();
    assert(cs.to_set().subset_of(pool.to_set())) by {
        assert forall|x: Seq<char>| cs.to_set().contains(x) implies pool.to_set().contains(x) by {
            let i = choose|i: int| 0 <= i < cs.len() && cs[i] == x;
            assert(seq_has_str(pool, candidate_id(base, i + 2)));
            let m = choose|m: int| 0 <= m < pool.len() && pool[m] == x;
            assert(pool.to_set().contains(pool[m]));
        }
    }
    vstd::set_lib::lemma_len_subset(cs.to_set(), pool.to_set());
    pool.lemma_cardinality_of_set();
}

/// The identifier actually assigned: the base when free, else the base with
/// the smallest numeric suffix (from 2 up) not yet taken. The fuel bound is
/// never reached: among `pool.len() + 1` distinct candidates one is free.
pub open spec fn free_counter_from(base: Seq<char>, pool: Seq<Seq<char>>, k: int, fuel: nat) -> int
    decreases fuel,
{
    if fuel == 0 {
        k
    } else if !seq_has_str(pool, candidate_id(base, k)) {
        k
    } else {
        free_counter_from(base, pool, k + 1, (fuel - 1) as nat)
    }
}

/// The unique identifier chosen against a pool of existing identifiers.
pub open spec fn ensure_unique_id(base: Seq<char>, pool: Seq<Seq<char>>) -> Seq<char> {
    if !seq_has_str(pool, base) {
        base
    } else {
        candidate_id(base, free_counter_from(base, pool, 2, (pool.len() + 1) as nat))
    }
}

/// Returns `base` when not yet taken, else the first `base-2`, `base-3`, ...
/// that is not; the chosen identifier is recorded in the pool.
pub fn ensure_unique_slot_id(base: &str, pool: &mut Vec<String>) -> (r: String)
    requires
        old(pool)@.len() < usize::MAX - 2,
    ensures
        r@ == ensure_unique_id(base@, string_views(old(pool)@)),
        !seq_has_str(string_views(old(pool)@), r@),
        final(pool)@.len() == old(pool)@.len() + 1,
        string_views(final(pool)@) =~= string_views(old(pool)@).push(r@),
{
    let ghost views = string_views(pool@);
    let r: String;
    if !contains_string(pool, base) {
        r = String::from_str(base);
    } else {
        let mut k: usize = 2;
        loop
            invariant
                2 <= k,
                k - 1 <= views.len() + 1,
                views.len() < usize::MAX - 2,
                views == string_views(pool@),
                forall|j: int| 2 <= j < k ==> seq_has_str(views, candidate_id(base@, j)),
                seq_has_str(views, base@),
            ensures
                2 <= k,
                !seq_has_str(views, candidate_id(base@, k as int)),
                forall|j: int| 2 <= j < k ==> seq_has_str(views, candidate_id(base@, j)),
            decreases views.len() + 2 - k,
        {
            let mut cand = String::from_str(base);
            cand.append("-");
            let digits = dec_string(k);
            cand.append(digits.as_str());
            proof {
                reveal_strlit("-");
                assert(cand@ =~= candidate_id(base@, k as int));
            }
            if !contains_string(pool, cand.as_str()) {
                break ;
            }
            proof {
                lemma_candidates_bound(base@, views, k as int);
            }
            k = k + 1;
        }
        let mut cand = String::from_str(base);
        cand.append("-");
        let digits = dec_string(k);
        cand.append(digits.as_str());
        proof {
            reveal_strlit("-");
            assert(cand@ =~= candidate_id(base@, k as int));
            let fuel = (views.len() + 1) as nat;
            lemma_free_counter_eq(base@, views, 2, fuel, k as int);
        }
        r = cand;
    }
    pool.push(String::from_str(r.as_str()));
    r
}

/// The fueled search finds exactly the first free counter.
proof fn lemma_free_counter_eq(base: Seq<char>, pool: Seq<Seq<char>>, start: int, fuel: nat, k: int)
    requires
        start >= 2,
        start <= k,
        k - start < fuel,
        !seq_has_str(pool, candidate_id(base, k)),
        forall|j: int| start <= j < k ==> seq_has_str(pool, candidate_id(base, j)),
    ensures
        free_counter_from(base, pool, start, fuel) == k,
    decreases fuel,
{
    if start == k {
    } else {
        assert(seq_has_str(pool, candidate_id(base, start)));
        lemma_free_counter_eq(base, pool, start + 1, (fuel - 1) as nat, k);
    }
}

} // verus!
