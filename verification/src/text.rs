//! Character-level helpers over string slices, with their mathematical models:
//! the lexicographic orders used to rank names and identity keys, and the
//! prefix/suffix/equality tests on names.

use vstd::prelude::*;
use vstd::multiset::Multiset;

verus! {

// ---------------------------------------------------------------------------
// Generic lexicographic order
// ---------------------------------------------------------------------------

/// `a` comes before `b` when compared element by element from position `i`
/// on, a proper prefix coming first.
pub open spec fn lex_lt_from<T>(a: Seq<T>, b: Seq<T>, lt: spec_fn(T, T) -> bool, i: int) -> bool
    decreases a.len() - i,
{
    if i >= a.len() {
        i < b.len()
    } else if i >= b.len() {
        false
    } else if a[i] != b[i] {
        lt(a[i], b[i])
    } else {
        lex_lt_from(a, b, lt, i + 1)
    }
}

/// Lexicographic strict order on sequences, from an order on the elements.
pub open spec fn lex_lt<T>(a: Seq<T>, b: Seq<T>, lt: spec_fn(T, T) -> bool) -> bool {
    lex_lt_from(a, b, lt, 0)
}

pub open spec fn lex_order<T>(lt: spec_fn(T, T) -> bool) -> spec_fn(Seq<T>, Seq<T>) -> bool {
    |a: Seq<T>, b: Seq<T>| lex_lt(a, b, lt)
}

/// `lt` is a strict total order: irreflexive, transitive, and any two distinct
/// values are comparable.
pub open spec fn is_strict_total<T>(lt: spec_fn(T, T) -> bool) -> bool {
    &&& forall|x: T| !#[trigger] lt(x, x)
    &&& forall|x: T, y: T, z: T| #[trigger] lt(x, y) && #[trigger] lt(y, z) ==> lt(x, z)
    &&& forall|x: T, y: T| x != y ==> #[trigger] lt(x, y) || lt(y, x)
}

proof fn lemma_lex_irrefl_from<T>(a: Seq<T>, lt: spec_fn(T, T) -> bool, i: int)
    requires
        is_strict_total(lt),
    ensures
        !lex_lt_from(a, a, lt, i),
    decreases a.len() - i,
{
    if i < a.len() {
        lemma_lex_irrefl_from(a, lt, i + 1);
    }
}

proof fn lemma_lex_trans_from<T>(a: Seq<T>, b: Seq<T>, c: Seq<T>, lt: spec_fn(T, T) -> bool, i: int)
    requires
        is_strict_total(lt),
        lex_lt_from(a, b, lt, i),
        lex_lt_from(b, c, lt, i),
    ensures
        lex_lt_from(a, c, lt, i),
    decreases a.len() - i,
{
    if i < a.len() && i < b.len() && i < c.len() {
        if a[i] == b[i] && b[i] == c[i] {
            lemma_lex_trans_from(a, b, c, lt, i + 1);
        } else if a[i] == b[i] {
        } else if b[i] == c[i] {
        } else {
            assert(lt(a[i], b[i]) && lt(b[i], c[i]));
            if a[i] == c[i] {
                assert(lt(a[i], a[i]));
            }
        }
    }
}

proof fn lemma_lex_total_from<T>(a: Seq<T>, b: Seq<T>, lt: spec_fn(T, T) -> bool, i: int)
    requires
        is_strict_total(lt),
        0 <= i <= a.len(),
        i <= b.len(),
        !lex_lt_from(a, b, lt, i),
        !lex_lt_from(b, a, lt, i),
    ensures
        a.len() == b.len(),
        forall|k: int| i <= k < a.len() ==> a[k] == b[k],
    decreases a.len() - i,
{
    if i < a.len() && i < b.len() {
        if a[i] == b[i] {
            lemma_lex_total_from(a, b, lt, i + 1);
        } else {
            assert(lt(a[i], b[i]) || lt(b[i], a[i]));
        }
    }
}

/// The lexicographic extension of a strict total order is a strict total order.
pub proof fn lemma_lex_strict_total<T>(lt: spec_fn(T, T) -> bool)
    requires
        is_strict_total(lt),
    ensures
        is_strict_total(lex_order(lt)),
{
    let o = lex_order(lt);
    assert forall|x: Seq<T>| !#[trigger] o(x, x) by {
        lemma_lex_irrefl_from(x, lt, 0);
    }
    assert forall|x: Seq<T>, y: Seq<T>, z: Seq<T>| #[trigger] o(x, y) && #[trigger] o(y, z) implies o(
        x,
        z,
    ) by {
        lemma_lex_trans_from(x, y, z, lt, 0);
    }
    assert forall|x: Seq<T>, y: Seq<T>| x != y implies #[trigger] o(x, y) || o(y, x) by {
        if !o(x, y) && !o(y, x) {
            lemma_lex_total_from(x, y, lt, 0);
            assert(x =~= y);
        }
    }
}

// ---------------------------------------------------------------------------
// Concrete orders: characters, names, name lists, identity keys
// ---------------------------------------------------------------------------

/// Characters ordered by code point (the order of `char` and of UTF-8 bytes).
pub open spec fn char_order() -> spec_fn(char, char) -> bool {
    |x: char, y: char| (x as int) < (y as int)
}

/// Names ordered as `str`/`String` order them.
pub open spec fn str_order() -> spec_fn(Seq<char>, Seq<char>) -> bool {
    lex_order(char_order())
}

/// Lists of names ordered as `Vec<String>` orders them.
pub open spec fn strs_order() -> spec_fn(Seq<Seq<char>>, Seq<Seq<char>>) -> bool {
    lex_order(str_order())
}

/// Lists of name lists ordered as `Vec<Vec<String>>` orders them.
pub open spec fn key_order() -> spec_fn(Seq<Seq<Seq<char>>>, Seq<Seq<Seq<char>>>) -> bool {
    lex_order(strs_order())
}

pub proof fn lemma_orders_strict_total()
    ensures
        is_strict_total(char_order()),
        is_strict_total(str_order()),
        is_strict_total(strs_order()),
        is_strict_total(key_order()),
{
    let co = char_order();
    assert forall|x: char, y: char| x != y implies #[trigger] co(x, y) || co(y, x) by {
        assert((x as int) != (y as int));
    }
    lemma_lex_strict_total(char_order());
    lemma_lex_strict_total(str_order());
    lemma_lex_strict_total(strs_order());
}

// ---------------------------------------------------------------------------
// Executable comparisons
// ---------------------------------------------------------------------------

/// The characters of `s`, in order.
pub fn chars_of(s: &str) -> (out: Vec<char>)
    ensures
        out@ == s@,
{
    let mut out: Vec<char> = Vec::new();
    for c in it: s.chars()
        invariant
            out@ == it.seq().take(it.index() as int),
            it.seq() == s@,
    {
        out.push(c);
    }
    out
}

/// The characters as a `String`, through std's `FromIterator<&char>` for
/// `String` (`collect`): trusted to give exactly these characters in order.
#[verifier::external_body]
pub fn string_of(chars: &Vec<char>) -> (s: String)
    ensures
        s@ == chars@,
{
    chars.iter().collect()
}

pub fn chars_lt(a: &Vec<char>, b: &Vec<char>) -> (r: bool)
    ensures
        r == lex_lt(a@, b@, char_order()),
{
    let mut i: usize = 0;
    while i < a.len() && i < b.len() && a[i] == b[i]
        invariant
            i <= a.len(),
            i <= b.len(),
            lex_lt(a@, b@, char_order()) == lex_lt_from(a@, b@, char_order(), i as int),
        decreases a.len() - i,
    {
        i = i + 1;
    }
    if i < a.len() && i < b.len() {
        a[i] < b[i]
    } else {
        a.len() < b.len()
    }
}

pub fn chars_eq(a: &Vec<char>, b: &Vec<char>) -> (r: bool)
    ensures
        r == (a@ == b@),
{
    if a.len() != b.len() {
        return false;
    }
    let mut i: usize = 0;
    while i < a.len()
        invariant
            i <= a.len(),
            a.len() == b.len(),
            forall|k: int| 0 <= k < i ==> a@[k] == b@[k],
        decreases a.len() - i,
    {
        if a[i] != b[i] {
            return false;
        }
        i = i + 1;
    }
    assert(a@ =~= b@);
    true
}

/// `a < b` in the order of `str`.
pub fn str_lt(a: &str, b: &str) -> (r: bool)
    ensures
        r == lex_lt(a@, b@, char_order()),
{
    chars_lt(&chars_of(a), &chars_of(b))
}

/// `a == b` on the characters.
pub fn str_eq(a: &str, b: &str) -> (r: bool)
    ensures
        r == (a@ == b@),
{
    chars_eq(&chars_of(a), &chars_of(b))
}

/// The name lists of a `Vec<String>`.
pub open spec fn names(v: Seq<String>) -> Seq<Seq<char>> {
    Seq::new(v.len(), |i: int| v[i]@)
}

/// The lists of name lists of a `Vec<Vec<String>>`.
pub open spec fn name_lists(v: Seq<Vec<String>>) -> Seq<Seq<Seq<char>>> {
    Seq::new(v.len(), |i: int| names(v[i]@))
}

pub fn strings_eq(a: &Vec<String>, b: &Vec<String>) -> (r: bool)
    ensures
        r == (names(a@) == names(b@)),
{
    if a.len() != b.len() {
        assert(names(a@).len() != names(b@).len());
        return false;
    }
    let mut i: usize = 0;
    while i < a.len()
        invariant
            i <= a.len(),
            a.len() == b.len(),
            forall|k: int| 0 <= k < i ==> a@[k]@ == b@[k]@,
        decreases a.len() - i,
    {
        if !str_eq(a[i].as_str(), b[i].as_str()) {
            assert(names(a@)[i as int] != names(b@)[i as int]);
            return false;
        }
        i = i + 1;
    }
    assert(names(a@) =~= names(b@));
    true
}

pub fn strings_lt(a: &Vec<String>, b: &Vec<String>) -> (r: bool)
    ensures
        r == lex_lt(names(a@), names(b@), str_order()),
{
    let ghost na = names(a@);
    let ghost nb = names(b@);
    let mut i: usize = 0;
    while i < a.len() && i < b.len() && str_eq(a[i].as_str(), b[i].as_str())
        invariant
            i <= a.len(),
            i <= b.len(),
            na == names(a@),
            nb == names(b@),
            lex_lt(na, nb, str_order()) == lex_lt_from(na, nb, str_order(), i as int),
        decreases a.len() - i,
    {
        assert(na[i as int] == nb[i as int]);
        i = i + 1;
    }
    if i < a.len() && i < b.len() {
        assert(na[i as int] != nb[i as int]);
        str_lt(a[i].as_str(), b[i].as_str())
    } else {
        a.len() < b.len()
    }
}

pub fn keys_eq(a: &Vec<Vec<String>>, b: &Vec<Vec<String>>) -> (r: bool)
    ensures
        r == (name_lists(a@) == name_lists(b@)),
{
    if a.len() != b.len() {
        assert(name_lists(a@).len() != name_lists(b@).len());
        return false;
    }
    let mut i: usize = 0;
    while i < a.len()
        invariant
            i <= a.len(),
            a.len() == b.len(),
            forall|k: int| 0 <= k < i ==> names(a@[k]@) == names(b@[k]@),
        decreases a.len() - i,
    {
        if !strings_eq(&a[i], &b[i]) {
            assert(name_lists(a@)[i as int] != name_lists(b@)[i as int]);
            return false;
        }
        i = i + 1;
    }
    assert(name_lists(a@) =~= name_lists(b@));
    true
}

pub fn keys_lt(a: &Vec<Vec<String>>, b: &Vec<Vec<String>>) -> (r: bool)
    ensures
        r == lex_lt(name_lists(a@), name_lists(b@), strs_order()),
{
    let ghost na = name_lists(a@);
    let ghost nb = name_lists(b@);
    let mut i: usize = 0;
    while i < a.len() && i < b.len() && strings_eq(&a[i], &b[i])
        invariant
            i <= a.len(),
            i <= b.len(),
            na == name_lists(a@),
            nb == name_lists(b@),
            lex_lt(na, nb, strs_order()) == lex_lt_from(na, nb, strs_order(), i as int),
        decreases a.len() - i,
    {
        assert(na[i as int] == nb[i as int]);
        i = i + 1;
    }
    if i < a.len() && i < b.len() {
        assert(na[i as int] != nb[i as int]);
        strings_lt(&a[i], &b[i])
    } else {
        a.len() < b.len()
    }
}

// ---------------------------------------------------------------------------
// Prefix, suffix and search
// ---------------------------------------------------------------------------

pub open spec fn has_prefix(s: Seq<char>, p: Seq<char>) -> bool {
    p.len() <= s.len() && s.take(p.len() as int) == p
}

pub open spec fn has_suffix(s: Seq<char>, p: Seq<char>) -> bool {
    p.len() <= s.len() && s.skip(s.len() - p.len()) == p
}

pub fn starts_with(s: &Vec<char>, p: &str) -> (r: bool)
    ensures
        r == has_prefix(s@, p@),
{
    let pc = chars_of(p);
    if pc.len() > s.len() {
        return false;
    }
    let mut i: usize = 0;
    while i < pc.len()
        invariant
            pc@ == p@,
            pc.len() <= s.len(),
            i <= pc.len(),
            forall|k: int| 0 <= k < i ==> s@[k] == pc@[k],
        decreases pc.len() - i,
    {
        if s[i] != pc[i] {
            assert(s@.take(pc.len() as int)[i as int] != p@[i as int]);
            return false;
        }
        i = i + 1;
    }
    assert(s@.take(pc.len() as int) =~= p@);
    true
}

pub fn ends_with(s: &Vec<char>, p: &str) -> (r: bool)
    ensures
        r == has_suffix(s@, p@),
{
    let pc = chars_of(p);
    if pc.len() > s.len() {
        return false;
    }
    let off = s.len() - pc.len();
    let mut i: usize = 0;
    while i < pc.len()
        invariant
            pc@ == p@,
            pc.len() <= s.len(),
            off == s.len() - pc.len(),
            i <= pc.len(),
            forall|k: int| 0 <= k < i ==> s@[off + k] == pc@[k],
        decreases pc.len() - i,
    {
        if s[off + i] != pc[i] {
            assert(s@.skip(off as int)[i as int] != p@[i as int]);
            return false;
        }
        i = i + 1;
    }
    assert(s@.skip(off as int) =~= p@);
    true
}

/// `c` occurs nowhere in `s`.
pub open spec fn lacks(s: Seq<char>, c: char) -> bool {
    forall|k: int| 0 <= k < s.len() ==> s[k] != c
}

/// Position of the first `c` in `s`.
pub open spec fn first_index(s: Seq<char>, c: char) -> Option<int>
    decreases s.len(),
{
    if s.len() == 0 {
        None
    } else if s[0] == c {
        Some(0)
    } else {
        match first_index(s.drop_first(), c) {
            Some(k) => Some(k + 1),
            None => None,
        }
    }
}

/// Position of the last `c` in `s`.
pub open spec fn last_index(s: Seq<char>, c: char) -> Option<int>
    decreases s.len(),
{
    if s.len() == 0 {
        None
    } else if s.last() == c {
        Some(s.len() - 1)
    } else {
        last_index(s.drop_last(), c)
    }
}

pub proof fn lemma_first_index(s: Seq<char>, c: char, k: int)
    requires
        0 <= k <= s.len(),
        lacks(s.take(k), c),
    ensures
        k < s.len() && s[k] == c ==> first_index(s, c) == Some(k),
        k == s.len() ==> first_index(s, c) is None,
    decreases s.len(),
{
    if s.len() > 0 && k > 0 {
        assert(s.take(k)[0] == s[0]);
        assert(s.drop_first().take(k - 1) =~= s.take(k).drop_first());
        lemma_first_index(s.drop_first(), c, k - 1);
    }
}

pub proof fn lemma_last_index(s: Seq<char>, c: char, k: int)
    requires
        0 <= k <= s.len(),
        lacks(s.skip(k), c),
    ensures
        k > 0 && s[k - 1] == c ==> last_index(s, c) == Some(k - 1),
        k == 0 ==> last_index(s, c) is None,
    decreases s.len(),
{
    if s.len() > 0 && k < s.len() {
        assert(s.skip(k)[s.len() - 1 - k] == s.last());
        assert(s.drop_last().skip(k) =~= s.skip(k).drop_last());
        lemma_last_index(s.drop_last(), c, k);
    }
}

pub proof fn lemma_first_index_props(s: Seq<char>, c: char)
    ensures
        match first_index(s, c) {
            Some(k) => 0 <= k < s.len() && s[k] == c && lacks(s.take(k), c),
            None => lacks(s, c),
        },
    decreases s.len(),
{
    if s.len() > 0 && s[0] != c {
        lemma_first_index_props(s.drop_first(), c);
        match first_index(s.drop_first(), c) {
            Some(k) => {
                assert forall|j: int| 0 <= j < k + 1 implies #[trigger] s.take(k + 1)[j] != c by {
                    if j > 0 {
                        assert(s.take(k + 1)[j] == s.drop_first().take(k)[j - 1]);
                    }
                }
            },
            None => {
                assert forall|j: int| 0 <= j < s.len() implies #[trigger] s[j] != c by {
                    if j > 0 {
                        assert(s[j] == s.drop_first()[j - 1]);
                    }
                }
            },
        }
    }
}

pub proof fn lemma_last_index_props(s: Seq<char>, c: char)
    ensures
        match last_index(s, c) {
            Some(k) => 0 <= k < s.len() && s[k] == c && lacks(s.skip(k + 1), c),
            None => lacks(s, c),
        },
    decreases s.len(),
{
    if s.len() > 0 && s.last() != c {
        lemma_last_index_props(s.drop_last(), c);
        match last_index(s.drop_last(), c) {
            Some(k) => {
                assert forall|j: int| 0 <= j < s.len() - k - 1 implies #[trigger] s.skip(k + 1)[j] != c by {
                    if j < s.len() - k - 2 {
                        assert(s.skip(k + 1)[j] == s.drop_last().skip(k + 1)[j]);
                    }
                }
            },
            None => {
                assert forall|j: int| 0 <= j < s.len() implies #[trigger] s[j] != c by {
                    if j < s.len() - 1 {
                        assert(s[j] == s.drop_last()[j]);
                    }
                }
            },
        }
    }
}

/// Index of the first `c` in `s`, if any.
pub fn find_first(s: &Vec<char>, c: char) -> (r: Option<usize>)
    ensures
        r matches Some(k) ==> first_index(s@, c) == Some(k as int) && k < s@.len() && s@[k as int] == c,
        r is None ==> first_index(s@, c) is None,
{
    let mut i: usize = 0;
    while i < s.len()
        invariant
            i <= s.len(),
            lacks(s@.take(i as int), c),
        decreases s.len() - i,
    {
        if s[i] == c {
            proof {
                lemma_first_index(s@, c, i as int);
            }
            return Some(i);
        }
        assert(s@.take(i + 1) =~= s@.take(i as int).push(s@[i as int]));
        i = i + 1;
    }
    proof {
        lemma_first_index(s@, c, i as int);
    }
    None
}

/// Index of the last `c` in `s`, if any.
pub fn find_last(s: &Vec<char>, c: char) -> (r: Option<usize>)
    ensures
        r matches Some(k) ==> last_index(s@, c) == Some(k as int) && k < s@.len() && s@[k as int] == c,
        r is None ==> last_index(s@, c) is None,
{
    let mut i: usize = s.len();
    while i > 0
        invariant
            i <= s.len(),
            lacks(s@.skip(i as int), c),
        decreases i,
    {
        if s[i - 1] == c {
            proof {
                lemma_last_index(s@, c, i as int);
            }
            return Some(i - 1);
        }
        assert(s@.skip(i - 1) =~= seq![s@[i - 1]] + s@.skip(i as int));
        i = i - 1;
    }
    proof {
        lemma_last_index(s@, c, 0);
    }
    None
}


// ---------------------------------------------------------------------------
// Sorted name lists
// ---------------------------------------------------------------------------

/// No element of `s` is greater than a later one under `lt`.
pub open spec fn sorted_by<T>(s: Seq<T>, lt: spec_fn(T, T) -> bool) -> bool {
    forall|i: int, j: int| 0 <= i < j < s.len() ==> !lt(#[trigger] s[j], #[trigger] s[i])
}

/// Insert `x` into the sorted list `v`, after every element that is not greater.
pub fn insert_sorted(v: &mut Vec<String>, x: String)
    requires
        sorted_by(names(old(v)@), str_order()),
    ensures
        sorted_by(names(final(v)@), str_order()),
        names(final(v)@).to_multiset() == names(old(v)@).to_multiset().insert(x@),
        final(v)@.len() == old(v)@.len() + 1,
{
    proof {
        lemma_orders_strict_total();
    }
    let ghost o = str_order();
    let ghost old_names = names(v@);
    let mut lo: usize = 0;
    let mut hi: usize = v.len();
    while lo < hi
        invariant
            o == str_order(),
            is_strict_total(o),
            old_names == names(v@),
            sorted_by(old_names, o),
            lo <= hi <= v@.len(),
            forall|q: int| 0 <= q < lo ==> !o(x@, #[trigger] old_names[q]),
            forall|q: int| hi <= q < v@.len() ==> o(x@, #[trigger] old_names[q]),
        decreases hi - lo,
    {
        let mid = lo + (hi - lo) / 2;
        if str_lt(x.as_str(), v[mid].as_str()) {
            assert(old_names[mid as int] == v@[mid as int]@);
            assert(o(x@, old_names[mid as int]));
            assert forall|q: int| mid <= q < v@.len() implies o(x@, #[trigger] old_names[q]) by {
                if q > mid && old_names[q] != old_names[mid as int] {
                    assert(!o(old_names[q], old_names[mid as int]));
                    assert(o(old_names[mid as int], old_names[q]));
                }
            }
            hi = mid;
        } else {
            assert(old_names[mid as int] == v@[mid as int]@);
            assert(!o(x@, old_names[mid as int]));
            assert forall|q: int| 0 <= q < mid + 1 implies !o(x@, #[trigger] old_names[q]) by {
                if q < mid && o(x@, old_names[q]) {
                    if x@ != old_names[mid as int] {
                        assert(o(old_names[mid as int], x@));
                    }
                    assert(o(old_names[mid as int], old_names[q]));
                }
            }
            lo = mid + 1;
        }
    }
    let ghost xv = x@;
    v.insert(lo, x);
    proof {
        let nn = names(v@);
        assert(nn =~= old_names.insert(lo as int, xv));
        vstd::seq_lib::to_multiset_insert(old_names, lo as int, xv);
        assert forall|i: int, j: int| 0 <= i < j < nn.len() implies !o(#[trigger] nn[j], #[trigger] nn[i]) by {
            if j == lo {
                assert(nn[i] == old_names[i]);
            } else if i == lo {
                assert(nn[j] == old_names[j - 1]);
                assert(o(xv, old_names[j - 1]));
            } else {
                let oi = if i < lo { i } else { i - 1 };
                let oj = if j < lo { j } else { j - 1 };
                assert(nn[i] == old_names[oi]);
                assert(nn[j] == old_names[oj]);
            }
        }
    }
}


// ---------------------------------------------------------------------------
// Whitespace trimming and sub-sequences
// ---------------------------------------------------------------------------

/// Unicode `White_Space`, the characters `str::trim` removes.
pub open spec fn is_whitespace(c: char) -> bool {
    ('\u{9}' <= c && c <= '\u{d}') || c == ' ' || c == '\u{85}' || c == '\u{a0}' || c == '\u{1680}'
        || ('\u{2000}' <= c && c <= '\u{200a}') || c == '\u{2028}' || c == '\u{2029}' || c
        == '\u{202f}' || c == '\u{205f}' || c == '\u{3000}'
}

pub fn whitespace(c: char) -> (b: bool)
    ensures
        b == is_whitespace(c),
{
    ('\u{9}' <= c && c <= '\u{d}') || c == ' ' || c == '\u{85}' || c == '\u{a0}' || c == '\u{1680}'
        || ('\u{2000}' <= c && c <= '\u{200a}') || c == '\u{2028}' || c == '\u{2029}' || c
        == '\u{202f}' || c == '\u{205f}' || c == '\u{3000}'
}

pub open spec fn trim_start(s: Seq<char>) -> Seq<char>
    decreases s.len(),
{
    if s.len() > 0 && is_whitespace(s[0]) {
        trim_start(s.drop_first())
    } else {
        s
    }
}

pub open spec fn trim_end(s: Seq<char>) -> Seq<char>
    decreases s.len(),
{
    if s.len() > 0 && is_whitespace(s.last()) {
        trim_end(s.drop_last())
    } else {
        s
    }
}

/// `s` without leading and trailing whitespace.
pub open spec fn trim(s: Seq<char>) -> Seq<char> {
    trim_end(trim_start(s))
}

/// A copy of `c[lo..hi]`.
pub fn sub_chars(c: &Vec<char>, lo: usize, hi: usize) -> (r: Vec<char>)
    requires
        lo <= hi <= c@.len(),
    ensures
        r@ == c@.subrange(lo as int, hi as int),
{
    let mut r: Vec<char> = Vec::new();
    let mut i = lo;
    while i < hi
        invariant
            lo <= i <= hi <= c@.len(),
            r@ == c@.subrange(lo as int, i as int),
        decreases hi - i,
    {
        r.push(c[i]);
        assert(c@.subrange(lo as int, i + 1) =~= c@.subrange(lo as int, i as int).push(c@[i as int]));
        i = i + 1;
    }
    r
}

/// `c` without leading and trailing whitespace.
pub fn trim_chars(c: &Vec<char>) -> (r: Vec<char>)
    ensures
        r@ == trim(c@),
{
    let mut a: usize = 0;
    assert(c@.skip(0) =~= c@);
    while a < c.len() && whitespace(c[a])
        invariant
            a <= c@.len(),
            trim_start(c@) == trim_start(c@.skip(a as int)),
        decreases c.len() - a,
    {
        assert(c@.skip(a as int).drop_first() =~= c@.skip(a + 1));
        a = a + 1;
    }
    let v = sub_chars(c, a, c.len());
    assert(v@ =~= c@.skip(a as int));
    let mut b: usize = v.len();
    assert(v@.take(b as int) =~= v@);
    while b > 0 && whitespace(v[b - 1])
        invariant
            b <= v@.len(),
            trim_end(v@) == trim_end(v@.take(b as int)),
        decreases b,
    {
        assert(v@.take(b as int).drop_last() =~= v@.take(b - 1));
        b = b - 1;
    }
    let r = sub_chars(&v, 0, b);
    assert(r@ =~= v@.take(b as int));
    r
}


// ---------------------------------------------------------------------------
// Sorted listings of names
// ---------------------------------------------------------------------------

/// Each element of `s` is smaller than every later one under `lt`.
pub open spec fn strictly_sorted_by<T>(s: Seq<T>, lt: spec_fn(T, T) -> bool) -> bool {
    forall|i: int, j: int| 0 <= i < j < s.len() ==> lt(#[trigger] s[i], #[trigger] s[j])
}

/// `s` lists, in increasing name order, exactly the names satisfying `p`.
pub open spec fn is_listing(s: Seq<Seq<char>>, p: spec_fn(Seq<char>) -> bool) -> bool {
    &&& strictly_sorted_by(s, str_order())
    &&& forall|x: Seq<char>| #[trigger] s.contains(x) <==> p(x)
}

/// The names satisfying `p`, in increasing order (defined when finitely many).
pub open spec fn listing(p: spec_fn(Seq<char>) -> bool) -> Seq<Seq<char>> {
    choose|s: Seq<Seq<char>>| #[trigger] is_listing(s, p)
}

pub proof fn lemma_strictly_sorted_unique<T>(s: Seq<T>, t: Seq<T>, lt: spec_fn(T, T) -> bool)
    requires
        is_strict_total(lt),
        strictly_sorted_by(s, lt),
        strictly_sorted_by(t, lt),
        forall|x: T| #[trigger] s.contains(x) <==> t.contains(x),
    ensures
        s == t,
    decreases s.len(),
{
    if s.len() == 0 {
        if t.len() > 0 {
            assert(t.contains(t[0]));
            assert(s.contains(t[0]));
            let a = choose|a: int| 0 <= a < s.len() && s[a] == t[0];
        }
        assert(s =~= t);
    } else {
        assert(s.contains(s[0]));
        assert(t.contains(s[0]));
        assert(t.contains(t[0]));
        assert(s.contains(t[0]));
        if s[0] != t[0] {
            let a = choose|a: int| 0 <= a < s.len() && s[a] == t[0];
            let b = choose|b: int| 0 <= b < t.len() && t[b] == s[0];
            assert(lt(s[0], s[a]));
            assert(lt(t[0], t[b]));
            assert(lt(s[0], s[0]));
        }
        assert(s[0] == t[0]);
        let s2 = s.drop_first();
        let t2 = t.drop_first();
        assert forall|x: T| #[trigger] s2.contains(x) <==> t2.contains(x) by {
            if s2.contains(x) {
                let a = choose|a: int| 0 <= a < s2.len() && s2[a] == x;
                assert(s[a + 1] == x);
                assert(lt(s[0], x));
                assert(s.contains(x));
                let b = choose|b: int| 0 <= b < t.len() && t[b] == x;
                if b == 0 {
                    assert(lt(x, x));
                }
                assert(t2[b - 1] == x);
            }
            if t2.contains(x) {
                let b = choose|b: int| 0 <= b < t2.len() && t2[b] == x;
                assert(t[b + 1] == x);
                assert(lt(t[0], x));
                assert(t.contains(x));
                assert(s.contains(x));
                let a = choose|a: int| 0 <= a < s.len() && s[a] == x;
                if a == 0 {
                    assert(lt(x, x));
                }
                assert(s2[a - 1] == x);
            }
        }
        assert forall|i: int, j: int| 0 <= i < j < s2.len() implies lt(#[trigger] s2[i], #[trigger] s2[j]) by {
            assert(s2[i] == s[i + 1] && s2[j] == s[j + 1]);
        }
        assert forall|i: int, j: int| 0 <= i < j < t2.len() implies lt(#[trigger] t2[i], #[trigger] t2[j]) by {
            assert(t2[i] == t[i + 1] && t2[j] == t[j + 1]);
        }
        lemma_strictly_sorted_unique(s2, t2, lt);
        assert(s =~= seq![s[0]] + s2);
        assert(t =~= seq![t[0]] + t2);
    }
}

/// A strictly increasing listing of exactly the names satisfying `p` is
/// `listing(p)`.
pub proof fn lemma_is_listing(s: Seq<Seq<char>>, p: spec_fn(Seq<char>) -> bool)
    requires
        is_listing(s, p),
    ensures
        s == listing(p),
{
    lemma_orders_strict_total();
    let t = listing(p);
    assert(is_listing(t, p));
    lemma_strictly_sorted_unique(s, t, str_order());
}

/// Insert `x` into the strictly increasing list `v` unless it is already there.
pub fn insert_unique(v: &mut Vec<String>, x: String)
    requires
        strictly_sorted_by(names(old(v)@), str_order()),
    ensures
        strictly_sorted_by(names(final(v)@), str_order()),
        forall|y: Seq<char>| #[trigger] names(final(v)@).contains(y) <==> (names(old(v)@).contains(y) || y == x@),
{
    proof {
        lemma_orders_strict_total();
    }
    let ghost o = str_order();
    let ghost old_names = names(v@);
    let mut lo: usize = 0;
    let mut hi: usize = v.len();
    while lo < hi
        invariant
            o == str_order(),
            is_strict_total(o),
            old_names == names(v@),
            strictly_sorted_by(old_names, o),
            lo <= hi <= v@.len(),
            forall|q: int| 0 <= q < lo ==> o(#[trigger] old_names[q], x@),
            forall|q: int| hi <= q < v@.len() ==> !o(#[trigger] old_names[q], x@),
        decreases hi - lo,
    {
        let mid = lo + (hi - lo) / 2;
        assert(old_names[mid as int] == v@[mid as int]@);
        if str_lt(v[mid].as_str(), x.as_str()) {
            assert(o(old_names[mid as int], x@));
            assert forall|q: int| 0 <= q < mid + 1 implies o(#[trigger] old_names[q], x@) by {
                if q < mid {
                    assert(o(old_names[q], old_names[mid as int]));
                }
            }
            lo = mid + 1;
        } else {
            assert forall|q: int| mid <= q < v@.len() implies !o(#[trigger] old_names[q], x@) by {
                if q > mid {
                    assert(o(old_names[mid as int], old_names[q]));
                    if o(old_names[q], x@) {
                        assert(o(old_names[mid as int], x@));
                    }
                }
            }
            hi = mid;
        }
    }
    if lo < v.len() && str_eq(v[lo].as_str(), x.as_str()) {
        assert(old_names[lo as int] == v@[lo as int]@);
        assert forall|y: Seq<char>| #[trigger] names(v@).contains(y) <==> (old_names.contains(y) || y == x@) by {
            if y == x@ {
                assert(old_names[lo as int] == y);
            }
        }
        return;
    }
    let ghost xv = x@;
    v.insert(lo, x);
    proof {
        let nn = names(v@);
        assert(nn =~= old_names.insert(lo as int, xv));
        if lo < old_names.len() {
            assert(old_names[lo as int] != xv);
            assert(!o(old_names[lo as int], xv));
            assert(o(xv, old_names[lo as int]));
        }
        assert forall|i: int, j: int| 0 <= i < j < nn.len() implies o(#[trigger] nn[i], #[trigger] nn[j]) by {
            if j == lo {
                assert(nn[i] == old_names[i]);
            } else if i == lo {
                assert(nn[j] == old_names[j - 1]);
                if j - 1 > lo {
                    assert(o(old_names[lo as int], old_names[j - 1]));
                }
            } else {
                let oi = if i < lo { i } else { i - 1 };
                let oj = if j < lo { j } else { j - 1 };
                assert(nn[i] == old_names[oi]);
                assert(nn[j] == old_names[oj]);
            }
        }
        assert forall|y: Seq<char>| #[trigger] nn.contains(y) <==> (old_names.contains(y) || y == xv) by {
            if nn.contains(y) {
                let k = choose|k: int| 0 <= k < nn.len() && nn[k] == y;
                if k < lo {
                    assert(old_names[k] == y);
                } else if k > lo {
                    assert(old_names[k - 1] == y);
                }
            }
            if old_names.contains(y) {
                let k = choose|k: int| 0 <= k < old_names.len() && old_names[k] == y;
                if k < lo {
                    assert(nn[k] == y);
                } else {
                    assert(nn[k + 1] == y);
                }
            }
            if y == xv {
                assert(nn[lo as int] == y);
            }
        }
    }
}

/// A sorted sequence is determined by its multiset.
pub proof fn lemma_sorted_multiset_unique<T>(s: Seq<T>, t: Seq<T>, lt: spec_fn(T, T) -> bool)
    requires
        is_strict_total(lt),
        sorted_by(s, lt),
        sorted_by(t, lt),
        s.to_multiset() == t.to_multiset(),
    ensures
        s == t,
    decreases s.len(),
{
    broadcast use vstd::seq_lib::group_to_multiset_ensures;
    if s.len() == 0 {
        if t.len() > 0 {
            assert(t.to_multiset().contains(t[0]));
        }
        assert(s =~= t);
    } else {
        assert(s.to_multiset().contains(s[0]));
        assert(t.contains(s[0]));
        assert(t.len() > 0);
        assert(t.to_multiset().contains(t[0]));
        assert(s.contains(t[0]));
        if s[0] != t[0] {
            let a = choose|a: int| 0 <= a < s.len() && s[a] == t[0];
            let b = choose|b: int| 0 <= b < t.len() && t[b] == s[0];
            if a > 0 {
                assert(!lt(s[a], s[0]));
            }
            if b > 0 {
                assert(!lt(t[b], t[0]));
            }
            assert(lt(s[0], t[0]) || lt(t[0], s[0]));
        }
        let s2 = s.drop_first();
        let t2 = t.drop_first();
        assert(s2 =~= s.remove(0));
        assert(t2 =~= t.remove(0));
        vstd::seq_lib::to_multiset_remove(s, 0);
        vstd::seq_lib::to_multiset_remove(t, 0);
        assert forall|i: int, j: int| 0 <= i < j < s2.len() implies !lt(#[trigger] s2[j], #[trigger] s2[i]) by {
            assert(s2[i] == s[i + 1] && s2[j] == s[j + 1]);
        }
        assert forall|i: int, j: int| 0 <= i < j < t2.len() implies !lt(#[trigger] t2[j], #[trigger] t2[i]) by {
            assert(t2[i] == t[i + 1] && t2[j] == t[j + 1]);
        }
        lemma_sorted_multiset_unique(s2, t2, lt);
        assert(s =~= seq![s[0]] + s2);
        assert(t =~= seq![t[0]] + t2);
    }
}

/// The names in `m`, sorted (duplicates kept).
pub open spec fn sorted_names(m: Multiset<Seq<char>>) -> Seq<Seq<char>> {
    choose|s: Seq<Seq<char>>| #[trigger] sorted_by(s, str_order()) && s.to_multiset() == m
}

pub proof fn lemma_is_sorted_names(s: Seq<Seq<char>>)
    requires
        sorted_by(s, str_order()),
    ensures
        s == sorted_names(s.to_multiset()),
{
    lemma_orders_strict_total();
    let t = sorted_names(s.to_multiset());
    assert(sorted_by(t, str_order()) && t.to_multiset() == s.to_multiset());
    lemma_sorted_multiset_unique(s, t, str_order());
}

proof fn lemma_sorted_split(t: Seq<Seq<char>>, x: Seq<char>) -> (k: int)
    requires
        is_strict_total(str_order()),
        sorted_by(t, str_order()),
    ensures
        0 <= k <= t.len(),
        forall|i: int| 0 <= i < k ==> !str_order()(x, #[trigger] t[i]),
        forall|i: int| k <= i < t.len() ==> str_order()(x, #[trigger] t[i]),
    decreases t.len(),
{
    let o = str_order();
    if t.len() == 0 {
        0
    } else {
        let p = t.drop_last();
        assert(sorted_by(p, o)) by {
            assert forall|i: int, j: int| 0 <= i < j < p.len() implies !o(#[trigger] p[j], #[trigger] p[i]) by {
                assert(p[i] == t[i] && p[j] == t[j]);
            }
        }
        let k0 = lemma_sorted_split(p, x);
        let n = t.len() - 1;
        if o(x, t[n]) {
            assert forall|i: int| k0 <= i < t.len() implies o(x, #[trigger] t[i]) by {
                if i < n {
                    assert(p[i] == t[i]);
                }
            }
            assert forall|i: int| 0 <= i < k0 implies !o(x, #[trigger] t[i]) by {
                assert(p[i] == t[i]);
            }
            k0
        } else {
            if k0 < n {
                assert(p[k0] == t[k0]);
                assert(o(x, t[k0]));
                assert(!o(t[n], t[k0]));
                if t[n] != t[k0] {
                    assert(o(t[k0], t[n]));
                }
                assert(false);
            }
            assert forall|i: int| 0 <= i < t.len() implies !o(x, #[trigger] t[i]) by {
                if i < n {
                    assert(p[i] == t[i]);
                }
            }
            t.len() as int
        }
    }
}

/// Every list of names has a sorted rearrangement.
pub proof fn lemma_sorted_rearrangement(s: Seq<Seq<char>>)
    ensures
        exists|t: Seq<Seq<char>>| #[trigger] sorted_by(t, str_order()) && t.to_multiset() == s.to_multiset(),
    decreases s.len(),
{
    lemma_orders_strict_total();
    let o = str_order();
    if s.len() == 0 {
        assert(sorted_by(s, o));
    } else {
        let p = s.drop_last();
        let x = s.last();
        lemma_sorted_rearrangement(p);
        let t = choose|t: Seq<Seq<char>>| #[trigger] sorted_by(t, o) && t.to_multiset() == p.to_multiset();
        let k = lemma_sorted_split(t, x);
        let u = t.insert(k, x);
        vstd::seq_lib::to_multiset_insert(t, k, x);
        assert(s =~= p.push(x));
        vstd::seq_lib::to_multiset_build(p, x);
        assert forall|i: int, j: int| 0 <= i < j < u.len() implies !o(#[trigger] u[j], #[trigger] u[i]) by {
            if j == k {
                assert(u[i] == t[i]);
            } else if i == k {
                assert(u[j] == t[j - 1]);
                assert(o(x, t[j - 1]));
            } else {
                let oi = if i < k { i } else { i - 1 };
                let oj = if j < k { j } else { j - 1 };
                assert(u[i] == t[oi]);
                assert(u[j] == t[oj]);
            }
        }
        assert(sorted_by(u, o));
    }
}

/// The sorted names of a list's multiset are a rearrangement of it, so two
/// lists with the same sorted names hold the same names.
pub proof fn lemma_sorted_names_injective(a: Seq<Seq<char>>, b: Seq<Seq<char>>)
    ensures
        sorted_names(a.to_multiset()).to_multiset() == a.to_multiset(),
        sorted_names(a.to_multiset()) == sorted_names(b.to_multiset()) ==> a.to_multiset() == b.to_multiset(),
{
    lemma_sorted_rearrangement(a);
    lemma_sorted_rearrangement(b);
}

} // verus!
