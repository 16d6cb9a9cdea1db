//! Unit identity parsing: the 16-hex hash namespace shared between
//! `.fingerprint/<pkg>-<hash>/` and `-C extra-filename` suffixes, fingerprint
//! unit kinds, and the `incremental/` directory grammar.

use vstd::prelude::*;
use vstd::string::*;
use crate::text::{
    chars_of, ends_with, find_first, find_last, first_index, has_prefix, has_suffix, insert_sorted,
    last_index, lemma_orders_strict_total, names, sorted_by, starts_with, str_eq, str_order,
    strictly_sorted_by,
};

verus! {

/// A lowercase hexadecimal digit.
pub open spec fn is_lower_hex(c: char) -> bool {
    ('0' <= c && c <= '9') || ('a' <= c && c <= 'f')
}

/// Cargo's unit hash: exactly 16 lowercase hex digits.
pub open spec fn spec_is_unit_hash(s: Seq<char>) -> bool {
    s.len() == 16 && forall|k: int| 0 <= k < 16 ==> is_lower_hex(#[trigger] s[k])
}

/// `<stem>-<hash>` split at the last `-`, when what follows it is a unit hash.
pub open spec fn spec_split_hash_suffix(n: Seq<char>) -> Option<(Seq<char>, Seq<char>)> {
    match last_index(n, '-') {
        Some(k) => if spec_is_unit_hash(n.skip(k + 1)) {
            Some((n.take(k), n.skip(k + 1)))
        } else {
            None
        },
        None => None,
    }
}

/// The part of a file name before its first `.` (the whole name without one).
pub open spec fn spec_stem(n: Seq<char>) -> Seq<char> {
    match first_index(n, '.') {
        Some(k) => n.take(k),
        None => n,
    }
}

/// The unit hash carried by an artifact file name.
pub open spec fn spec_artifact_hash(n: Seq<char>) -> Option<Seq<char>> {
    match spec_split_hash_suffix(spec_stem(n)) {
        Some((_, h)) => Some(h),
        None => None,
    }
}

/// Everything after the first `.` of a file name, or nothing.
pub open spec fn spec_extension_chain(n: Seq<char>) -> Seq<char> {
    match first_index(n, '.') {
        Some(k) => n.skip(k + 1),
        None => Seq::empty(),
    }
}

/// Fingerprint files that name the unit, as opposed to metadata.
pub open spec fn spec_is_state_file(n: Seq<char>) -> bool {
    &&& n != "invoked.timestamp"@
    &&& !has_suffix(n, ".json"@)
    &&& !has_prefix(n, "dep-"@)
    &&& !has_prefix(n, "output-"@)
}

fn all_lower_hex(c: &Vec<char>, from: usize) -> (b: bool)
    requires
        from <= c@.len(),
    ensures
        b == forall|k: int| from <= k < c@.len() ==> is_lower_hex(#[trigger] c@[k]),
{
    let mut i = from;
    while i < c.len()
        invariant
            from <= i <= c@.len(),
            forall|k: int| from <= k < i ==> is_lower_hex(#[trigger] c@[k]),
        decreases c.len() - i,
    {
        let ch = c[i];
        if !(('0' <= ch && ch <= '9') || ('a' <= ch && ch <= 'f')) {
            return false;
        }
        i = i + 1;
    }
    true
}

/// True for Cargo's unit hash: exactly 16 lowercase hex digits.
pub fn is_unit_hash(s: &str) -> (b: bool)
    ensures
        b == spec_is_unit_hash(s@),
{
    let c = chars_of(s);
    if c.len() != 16 {
        return false;
    }
    all_lower_hex(&c, 0)
}

/// Split `<stem>-<16hex>` into `(stem, hash)`. `None` (keep, fail-open) when
/// the name carries no hash suffix.
pub fn split_hash_suffix(name: &str) -> (r: Option<(&str, &str)>)
    ensures
        r matches Some((a, b)) ==> spec_split_hash_suffix(name@) == Some((a@, b@)),
        r is None ==> spec_split_hash_suffix(name@) is None,
{
    let c = chars_of(name);
    match find_last(&c, '-') {
        Some(k) => {
            let n = c.len();
            if n - (k + 1) == 16 && all_lower_hex(&c, k + 1) {
                assert forall|j: int| 0 <= j < 16 implies is_lower_hex(#[trigger] name@.skip(k + 1)[j]) by {
                    assert(name@.skip(k + 1)[j] == c@[k + 1 + j]);
                }
                let stem = name.substring_char(0, k);
                let hash = name.substring_char(k + 1, n);
                assert(stem@ =~= name@.take(k as int));
                assert(hash@ =~= name@.skip(k + 1));
                Some((stem, hash))
            } else {
                if n - (k + 1) == 16 {
                    let ghost j = choose|j: int| k + 1 <= j < c@.len() && !is_lower_hex(#[trigger] c@[j]);
                    assert(name@.skip(k + 1)[j - k - 1] == c@[j]);
                }
                None
            }
        },
        None => None,
    }
}

/// Extract the unit hash from an artifact file name: take the part before the
/// first `.`, then its trailing `-<16hex>`. Hash-less names (plain binaries)
/// are a known class, always kept.
pub fn artifact_hash(file_name: &str) -> (r: Option<&str>)
    ensures
        r matches Some(h) ==> spec_artifact_hash(file_name@) == Some(h@),
        r is None ==> spec_artifact_hash(file_name@) is None,
{
    let c = chars_of(file_name);
    let stem = match find_first(&c, '.') {
        Some(k) => file_name.substring_char(0, k),
        None => file_name.substring_char(0, c.len()),
    };
    assert(stem@ =~= spec_stem(file_name@));
    match split_hash_suffix(stem) {
        Some((_, h)) => Some(h),
        None => None,
    }
}

/// The extension chain of an artifact file name: everything after the first
/// `.` (`"rlib"`, `"dll.lib"`, `"d"`), or `""` for extension-less files.
pub fn extension_chain(file_name: &str) -> (r: &str)
    ensures
        r@ == spec_extension_chain(file_name@),
{
    let c = chars_of(file_name);
    match find_first(&c, '.') {
        Some(k) => {
            assert(k < c.len());
            let r = file_name.substring_char(k + 1, c.len());
            assert(r@ =~= file_name@.skip(k + 1));
            r
        },
        None => {
            let r = file_name.substring_char(c.len(), c.len());
            assert(r@ =~= Seq::<char>::empty());
            r
        },
    }
}

fn is_state_file(name: &str) -> (b: bool)
    ensures
        b == spec_is_state_file(name@),
{
    let c = chars_of(name);
    !str_eq(name, "invoked.timestamp") && !ends_with(&c, ".json") && !starts_with(&c, "dep-")
        && !starts_with(&c, "output-")
}

/// The names of a list of string slices.
pub open spec fn slice_names(files: Seq<&str>) -> Seq<Seq<char>> {
    Seq::new(files.len(), |i: int| files[i]@)
}

/// The state files among `files`, in their order.
pub open spec fn spec_state_files(files: Seq<Seq<char>>) -> Seq<Seq<char>> {
    files.filter(|n: Seq<char>| spec_is_state_file(n))
}

proof fn lemma_state_files_from(s: Seq<Seq<char>>)
    ensures
        forall|x: Seq<char>| #[trigger] spec_state_files(s).contains(x) ==> s.contains(x),
        s.no_duplicates() ==> spec_state_files(s).no_duplicates(),
    decreases s.len(),
{
    if s.len() > 0 {
        let p = s.drop_last();
        lemma_state_files_from(p);
        assert(s =~= p.push(s.last()));
        p.lemma_filter_push(s.last(), |n: Seq<char>| spec_is_state_file(n));
        let f = spec_state_files(s);
        let fp = spec_state_files(p);
        assert forall|x: Seq<char>| #[trigger] f.contains(x) implies s.contains(x) by {
            let k = choose|k: int| 0 <= k < f.len() && f[k] == x;
            if k < fp.len() {
                assert(fp[k] == x);
                assert(fp.contains(x));
                let j = choose|j: int| 0 <= j < p.len() && p[j] == x;
                assert(s[j] == x);
            } else {
                assert(s[s.len() - 1] == x);
            }
        }
        if s.no_duplicates() {
            assert(p.no_duplicates()) by {
                assert forall|i: int, j: int| 0 <= i < p.len() && 0 <= j < p.len() && i != j implies p[i] != p[j] by {
                    assert(p[i] == s[i] && p[j] == s[j]);
                }
            }
            if spec_is_state_file(s.last()) {
                assert(!fp.contains(s.last())) by {
                    if fp.contains(s.last()) {
                        let j = choose|j: int| 0 <= j < p.len() && p[j] == s.last();
                        assert(s[j] == s[s.len() - 1]);
                    }
                }
                assert forall|i: int, j: int| 0 <= i < f.len() && 0 <= j < f.len() && i != j implies f[i] != f[j] by {
                    if i == f.len() - 1 {
                        assert(fp.contains(f[j]));
                    } else if j == f.len() - 1 {
                        assert(fp.contains(f[i]));
                    }
                }
            }
        }
    }
}

/// The sorted state-file names inside a fingerprint directory: the
/// unit-identity component of the grouping key. A multi-bin package keeps all
/// its `bin-*` fingerprints in one directory, so the file set is the identity.
pub fn unit_state_files(files: &[&str]) -> (out: Vec<String>)
    ensures
        sorted_by(names(out@), str_order()),
        names(out@).to_multiset() == spec_state_files(slice_names(files@)).to_multiset(),
        // Distinct names come out strictly ascending.
        slice_names(files@).no_duplicates() ==> strictly_sorted_by(names(out@), str_order()),
        // Metadata never counts: no timestamp, JSON, dep-info or cached
        // compiler output file is a state file.
        forall|i: int|
            0 <= i < out@.len() ==> {
                let n = #[trigger] out@[i]@;
                &&& n != "invoked.timestamp"@
                &&& !has_suffix(n, ".json"@)
                &&& !has_prefix(n, "dep-"@)
                &&& !has_prefix(n, "output-"@)
            },
{
    let mut out: Vec<String> = Vec::new();
    let ghost all = slice_names(files@);
    let mut i: usize = 0;
    assert(names(out@) =~= Seq::<Seq<char>>::empty());
    assert(all.take(0) =~= Seq::<Seq<char>>::empty());
    assert(spec_state_files(all.take(0)) =~= Seq::<Seq<char>>::empty());
    assert(names(out@) == spec_state_files(all.take(0)));
    while i < files.len()
        invariant
            i <= files@.len(),
            all == slice_names(files@),
            sorted_by(names(out@), str_order()),
            names(out@).to_multiset() == spec_state_files(all.take(i as int)).to_multiset(),
        decreases files.len() - i,
    {
        let f = files[i];
        proof {
            assert(all.take(i + 1) =~= all.take(i as int).push(all[i as int]));
            all.take(i as int).lemma_filter_push(all[i as int], |n: Seq<char>| spec_is_state_file(n));
        }
        if is_state_file(f) {
            let s = f.to_owned();
            proof {
                vstd::seq_lib::to_multiset_build(spec_state_files(all.take(i as int)), s@);
            }
            insert_sorted(&mut out, s);
        }
        i = i + 1;
    }
    assert(all.take(i as int) =~= all);
    proof {
        assert forall|i: int| 0 <= i < out@.len() implies {
            let n = #[trigger] out@[i]@;
            &&& n != "invoked.timestamp"@
            &&& !has_suffix(n, ".json"@)
            &&& !has_prefix(n, "dep-"@)
            &&& !has_prefix(n, "output-"@)
        } by {
            let n = out@[i]@;
            assert(names(out@)[i] == n);
            vstd::seq_lib::to_multiset_contains(names(out@), n);
            vstd::seq_lib::to_multiset_contains(spec_state_files(all), n);
            assert(names(out@).contains(n));
            assert(names(out@).to_multiset().count(n) > 0);
            assert(spec_state_files(all).to_multiset().count(n) > 0);
            assert(spec_state_files(all).contains(n));
            let k = choose|k: int| 0 <= k < spec_state_files(all).len() && spec_state_files(all)[k] == n;
            all.lemma_filter_pred(|m: Seq<char>| spec_is_state_file(m), k);
        }
        if all.no_duplicates() {
            lemma_state_files_from(all);
            spec_state_files(all).lemma_multiset_has_no_duplicates();
            names(out@).lemma_multiset_has_no_duplicates_conv();
            lemma_orders_strict_total();
            let o = str_order();
            let ns = names(out@);
            assert forall|i: int, j: int| 0 <= i < j < ns.len() implies o(#[trigger] ns[i], #[trigger] ns[j]) by {
                assert(ns[i] != ns[j]);
                assert(!o(ns[j], ns[i]));
            }
        }
    }
    out
}

/// Unit kind, derived from the file names inside a fingerprint directory.
#[derive(Debug, Clone, PartialEq, Eq, PartialOrd, Ord)]
pub enum UnitKind {
    Lib,
    Bin,
    Test,
    Example,
    Bench,
    /// Compiling the build script itself (`build-script-*` files).
    BuildScriptCompile,
    /// Running the build script (`run-build-script-*` files).
    BuildScriptRun,
    /// Unrecognized fingerprint contents, kept verbatim so grouping still
    /// separates it; never a deletion candidate on its own.
    Other(String),
}

/// The mathematical value of a [`UnitKind`].
pub enum KindModel {
    Lib,
    Bin,
    Test,
    Example,
    Bench,
    BuildScriptCompile,
    BuildScriptRun,
    Other(Seq<char>),
}

impl View for UnitKind {
    type V = KindModel;

    open spec fn view(&self) -> KindModel {
        match self {
            UnitKind::Lib => KindModel::Lib,
            UnitKind::Bin => KindModel::Bin,
            UnitKind::Test => KindModel::Test,
            UnitKind::Example => KindModel::Example,
            UnitKind::Bench => KindModel::Bench,
            UnitKind::BuildScriptCompile => KindModel::BuildScriptCompile,
            UnitKind::BuildScriptRun => KindModel::BuildScriptRun,
            UnitKind::Other(s) => KindModel::Other(s@),
        }
    }
}

/// The kind a single state file names, by its prefix.
pub open spec fn spec_kind_of(f: Seq<char>) -> KindModel {
    if has_prefix(f, "run-build-script"@) {
        KindModel::BuildScriptRun
    } else if has_prefix(f, "build-script"@) {
        KindModel::BuildScriptCompile
    } else if has_prefix(f, "lib-"@) {
        KindModel::Lib
    } else if has_prefix(f, "bin-"@) {
        KindModel::Bin
    } else if has_prefix(f, "test-"@) || has_prefix(f, "integration-test-"@) {
        KindModel::Test
    } else if has_prefix(f, "example-"@) {
        KindModel::Example
    } else if has_prefix(f, "bench-"@) {
        KindModel::Bench
    } else {
        KindModel::Other(f)
    }
}

/// Merging a newly seen kind into the best so far: a specific kind wins over
/// `Other` in either order, and the first specific kind is kept.
pub open spec fn merge_kind(best: Option<KindModel>, k: KindModel) -> Option<KindModel> {
    match best {
        None => Some(k),
        Some(KindModel::Other(_)) => Some(k),
        Some(prev) => Some(prev),
    }
}

/// The kind of a fingerprint directory holding `files`, in their order.
pub open spec fn spec_unit_kind(files: Seq<Seq<char>>) -> Option<KindModel>
    decreases files.len(),
{
    if files.len() == 0 {
        None
    } else {
        let prev = spec_unit_kind(files.drop_last());
        if spec_is_state_file(files.last()) {
            merge_kind(prev, spec_kind_of(files.last()))
        } else {
            prev
        }
    }
}

fn kind_of(f: &str) -> (k: UnitKind)
    ensures
        k@ == spec_kind_of(f@),
{
    let c = chars_of(f);
    if starts_with(&c, "run-build-script") {
        UnitKind::BuildScriptRun
    } else if starts_with(&c, "build-script") {
        UnitKind::BuildScriptCompile
    } else if starts_with(&c, "lib-") {
        UnitKind::Lib
    } else if starts_with(&c, "bin-") {
        UnitKind::Bin
    } else if starts_with(&c, "test-") || starts_with(&c, "integration-test-") {
        UnitKind::Test
    } else if starts_with(&c, "example-") {
        UnitKind::Example
    } else if starts_with(&c, "bench-") {
        UnitKind::Bench
    } else {
        UnitKind::Other(f.to_owned())
    }
}

/// A kind other than `Other`: one that names what the unit builds.
pub open spec fn is_named_kind(k: KindModel) -> bool {
    !(k is Other)
}

/// A fingerprint directory's kind is that of its first state file with a
/// named kind; when none has one, it is `Other` of its last state file; and
/// there is none exactly when it holds no state file.
pub proof fn law_unit_kind_first_named(files: Seq<Seq<char>>)
    ensures
        (spec_unit_kind(files) is None) <==> spec_state_files(files).len() == 0,
        forall|i: int|
            0 <= i < spec_state_files(files).len() && is_named_kind(
                #[trigger] spec_kind_of(spec_state_files(files)[i]),
            ) && (forall|j: int| 0 <= j < i ==> !is_named_kind(spec_kind_of(spec_state_files(files)[j])))
                ==> spec_unit_kind(files) == Some(spec_kind_of(spec_state_files(files)[i])),
        spec_state_files(files).len() > 0 && (forall|i: int|
            0 <= i < spec_state_files(files).len() ==> !is_named_kind(
                #[trigger] spec_kind_of(spec_state_files(files)[i]),
            )) ==> spec_unit_kind(files) == Some(KindModel::Other(spec_state_files(files).last())),
    decreases files.len(),
{
    if files.len() > 0 {
        let p = files.drop_last();
        let f = files.last();
        law_unit_kind_first_named(p);
        assert(files =~= p.push(f));
        p.lemma_filter_push(f, |n: Seq<char>| spec_is_state_file(n));
        let s = spec_state_files(files);
        let sp = spec_state_files(p);
        if spec_is_state_file(f) {
            assert(s =~= sp.push(f));
            assert forall|i: int|
                0 <= i < s.len() && is_named_kind(#[trigger] spec_kind_of(s[i])) && (forall|j: int|
                    0 <= j < i ==> !is_named_kind(spec_kind_of(s[j]))) implies spec_unit_kind(files) == Some(
                spec_kind_of(s[i]),
            ) by {
                if i < sp.len() {
                    assert(s[i] == sp[i]);
                    assert forall|j: int| 0 <= j < i implies !is_named_kind(spec_kind_of(sp[j])) by {
                        assert(s[j] == sp[j]);
                    }
                } else {
                    if sp.len() > 0 {
                        assert forall|j: int| 0 <= j < sp.len() implies !is_named_kind(
                            #[trigger] spec_kind_of(sp[j]),
                        ) by {
                            assert(s[j] == sp[j]);
                        }
                    }
                }
            }
            if forall|i: int| 0 <= i < s.len() ==> !is_named_kind(#[trigger] spec_kind_of(s[i])) {
                assert(!is_named_kind(spec_kind_of(s[s.len() - 1])));
                if sp.len() > 0 {
                    assert forall|j: int| 0 <= j < sp.len() implies !is_named_kind(
                        #[trigger] spec_kind_of(sp[j]),
                    ) by {
                        assert(s[j] == sp[j]);
                    }
                }
            }
        } else {
            assert(s =~= sp);
        }
    }
}

proof fn lemma_unit_kind_source(files: Seq<Seq<char>>)
    ensures
        spec_unit_kind(files) matches Some(k) ==> exists|j: int|
            0 <= j < files.len() && spec_is_state_file(#[trigger] files[j]) && (k matches KindModel::Other(o) ==> o
                == files[j]),
    decreases files.len(),
{
    if files.len() > 0 {
        let p = files.drop_last();
        lemma_unit_kind_source(p);
        let n = files.len() - 1;
        if let Some(k) = spec_unit_kind(files) {
            if spec_is_state_file(files[n]) && k == spec_kind_of(files[n]) {
                assert(spec_is_state_file(files[n]));
            } else {
                let pk = spec_unit_kind(p)->0;
                assert(spec_unit_kind(p) == Some(k));
                let j = choose|j: int|
                    0 <= j < p.len() && spec_is_state_file(#[trigger] p[j]) && (pk matches KindModel::Other(o) ==> o
                        == p[j]);
                assert(files[j] == p[j]);
            }
        }
    }
}

/// Classify a fingerprint directory from its contained file names.
/// `None` when nothing recognizable is present (keep, fail-open).
pub fn unit_kind_from_files(files: &[&str]) -> (r: Option<UnitKind>)
    ensures
        match r {
            Some(k) => spec_unit_kind(slice_names(files@)) == Some(k@),
            None => spec_unit_kind(slice_names(files@)) is None,
        },
        // Only a state file decides the kind: metadata (timestamps, JSON,
        // dep-info, cached compiler output) never does, and an unrecognized
        // kind is named after one of the state files.
        r matches Some(k) ==> exists|i: int|
            0 <= i < files@.len() && {
                let n = #[trigger] files@[i]@;
                &&& n != "invoked.timestamp"@
                &&& !has_suffix(n, ".json"@)
                &&& !has_prefix(n, "dep-"@)
                &&& !has_prefix(n, "output-"@)
                &&& (k matches UnitKind::Other(o) ==> o@ == n)
            },
{
    let ghost all = slice_names(files@);
    let mut best: Option<UnitKind> = None;
    let mut i: usize = 0;
    assert(all.take(0) =~= Seq::<Seq<char>>::empty());
    while i < files.len()
        invariant
            i <= files@.len(),
            all == slice_names(files@),
            match best {
                Some(k) => spec_unit_kind(all.take(i as int)) == Some(k@),
                None => spec_unit_kind(all.take(i as int)) is None,
            },
        decreases files.len() - i,
    {
        let f = files[i];
        assert(all.take(i + 1).drop_last() =~= all.take(i as int));
        assert(all.take(i + 1).last() == f@);
        if is_state_file(f) {
            let kind = kind_of(f);
            best = match best {
                None => Some(kind),
                Some(UnitKind::Other(o)) => Some(kind),
                Some(prev) => Some(prev),
            };
        }
        i = i + 1;
    }
    assert(all.take(i as int) =~= all);
    proof {
        lemma_unit_kind_source(all);
        if best is Some {
            let km = spec_unit_kind(all)->0;
            let j = choose|j: int|
                0 <= j < all.len() && spec_is_state_file(#[trigger] all[j]) && (km matches KindModel::Other(o) ==> o == all[j]);
            assert(all[j] == files@[j]@);
        }
    }
    best
}

/// An ASCII letter or digit, or `_`.
pub open spec fn is_crate_char(c: char) -> bool {
    ('a' <= c && c <= 'z') || ('A' <= c && c <= 'Z') || ('0' <= c && c <= '9') || c == '_'
}

/// An ASCII lowercase letter or digit.
pub open spec fn is_disambiguator_char(c: char) -> bool {
    ('a' <= c && c <= 'z') || ('0' <= c && c <= '9')
}

/// `<crate>-<disambiguator>` split at the last `-`, when the crate part is a
/// non-empty sanitized crate name and the disambiguator non-empty lowercase
/// alphanumeric.
pub open spec fn spec_incremental_group(n: Seq<char>) -> Option<(Seq<char>, Seq<char>)> {
    match last_index(n, '-') {
        Some(k) => {
            let krate = n.take(k);
            let disambig = n.skip(k + 1);
            if krate.len() > 0 && (forall|j: int| 0 <= j < krate.len() ==> is_crate_char(#[trigger] krate[j]))
                && disambig.len() > 0 && (forall|j: int|
                0 <= j < disambig.len() ==> is_disambiguator_char(#[trigger] disambig[j])) {
                Some((krate, disambig))
            } else {
                None
            }
        },
        None => None,
    }
}

fn all_crate_chars(c: &Vec<char>, from: usize, to: usize) -> (b: bool)
    requires
        from <= to <= c@.len(),
    ensures
        b == forall|k: int| from <= k < to ==> is_crate_char(#[trigger] c@[k]),
{
    let mut i = from;
    while i < to
        invariant
            from <= i <= to <= c@.len(),
            forall|k: int| from <= k < i ==> is_crate_char(#[trigger] c@[k]),
        decreases to - i,
    {
        let ch = c[i];
        if !(('a' <= ch && ch <= 'z') || ('A' <= ch && ch <= 'Z') || ('0' <= ch && ch <= '9')
            || ch == '_') {
            return false;
        }
        i = i + 1;
    }
    true
}

fn all_disambiguator_chars(c: &Vec<char>, from: usize, to: usize) -> (b: bool)
    requires
        from <= to <= c@.len(),
    ensures
        b == forall|k: int| from <= k < to ==> is_disambiguator_char(#[trigger] c@[k]),
{
    let mut i = from;
    while i < to
        invariant
            from <= i <= to <= c@.len(),
            forall|k: int| from <= k < i ==> is_disambiguator_char(#[trigger] c@[k]),
        decreases to - i,
    {
        let ch = c[i];
        if !(('a' <= ch && ch <= 'z') || ('0' <= ch && ch <= '9')) {
            return false;
        }
        i = i + 1;
    }
    true
}

/// Parse an `incremental/` child directory name `<crate>-<disambiguator>`.
/// `None` for anything else (keep, fail-open).
pub fn incremental_group(dir_name: &str) -> (r: Option<(&str, &str)>)
    ensures
        r matches Some((a, b)) ==> spec_incremental_group(dir_name@) == Some((a@, b@)),
        r is None ==> spec_incremental_group(dir_name@) is None,
{
    let c = chars_of(dir_name);
    match find_last(&c, '-') {
        Some(k) => {
            let n = c.len();
            let krate_ok = k > 0 && all_crate_chars(&c, 0, k);
            let dis_ok = k + 1 < n && all_disambiguator_chars(&c, k + 1, n);
            let ghost krate = dir_name@.take(k as int);
            let ghost dis = dir_name@.skip(k + 1);
            assert forall|j: int| 0 <= j < krate.len() implies #[trigger] krate[j] == c@[j] by {}
            assert forall|j: int| 0 <= j < dis.len() implies #[trigger] dis[j] == c@[k + 1 + j] by {}
            if krate_ok && dis_ok {
                let a = dir_name.substring_char(0, k);
                let b = dir_name.substring_char(k + 1, n);
                assert(a@ =~= krate);
                assert(b@ =~= dis);
                Some((a, b))
            } else {
                proof {
                    if k > 0 && !krate_ok {
                        let j = choose|j: int| 0 <= j < k && !is_crate_char(#[trigger] c@[j]);
                        assert(!is_crate_char(krate[j]));
                    }
                    if k + 1 < n && !dis_ok {
                        let j = choose|j: int| k + 1 <= j < n && !is_disambiguator_char(#[trigger] c@[j]);
                        assert(!is_disambiguator_char(dis[j - k - 1]));
                    }
                }
                None
            }
        },
        None => None,
    }
}

} // verus!
