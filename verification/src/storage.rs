//! The recording set: filtering a storage listing down to recording names,
//! and validating a name before deletion or upload. Validation is a
//! security boundary: a recording must be a direct child of the storage
//! root, so a name holding a path separator or missing the `.csv`
//! extension is rejected.

use crate::errors::RecorderError;
use vstd::prelude::*;
use vstd::string::StrSliceExecFns;

verus! {

/// Does the name end in `.csv`?
pub open spec fn has_csv_extension(s: Seq<char>) -> bool {
    s.len() >= 4 && s.subrange(s.len() - 4, s.len() as int) == seq!['.', 'c', 's', 'v']
}

/// A valid recording name: a non-empty stem, the `.csv` extension, and no
/// path separator or drive prefix anywhere (`:` joined to a root on
/// Windows can replace it), so that joining the name to the storage root
/// cannot resolve outside the root.
pub open spec fn is_valid_recording_name(s: Seq<char>) -> bool {
    &&& s.len() >= 5
    &&& has_csv_extension(s)
    &&& forall|i: int| 0 <= i < s.len() ==> s[i] != '/' && s[i] != '\\' && s[i] != ':'
}

/// Does `name` end in `.csv`?
pub fn check_csv_extension(name: &str) -> (r: bool)
    ensures
        r == has_csv_extension(name@),
{
    let n = name.unicode_len();
    if n < 4 {
        return false;
    }
    let c0 = name.get_char(n - 4);
    let c1 = name.get_char(n - 3);
    let c2 = name.get_char(n - 2);
    let c3 = name.get_char(n - 1);
    let r = c0 == '.' && c1 == 'c' && c2 == 's' && c3 == 'v';
    proof {
        let sub = name@.subrange(name@.len() - 4, name@.len() as int);
        assert(sub.len() == 4);
        assert(sub[0] == name@[name@.len() - 4]);
        assert(sub[1] == name@[name@.len() - 3]);
        assert(sub[2] == name@[name@.len() - 2]);
        assert(sub[3] == name@[name@.len() - 1]);
        if r {
            assert(sub =~= seq!['.', 'c', 's', 'v']);
        } else {
            assert(sub != seq!['.', 'c', 's', 'v']) by {
                if sub == seq!['.', 'c', 's', 'v'] {
                    assert(sub[0] == '.' && sub[1] == 'c' && sub[2] == 's' && sub[3] == 'v');
                }
            }
        }
    }
    r
}

/// Validate a recording name for deletion or upload: accepted exactly when
/// it has a non-empty stem, ends in `.csv`, and holds no path separator or
/// drive prefix. Anything else fails with `InvalidName`, and the operation
/// it guards must be aborted.
pub fn validate_recording_name(name: &str) -> (r: Result<(), RecorderError>)
    ensures
        match r {
            Result::Ok(u) => is_valid_recording_name(name@),
            Result::Err(e) => !is_valid_recording_name(name@) && e == RecorderError::InvalidName,
        },
{
    let n = name.unicode_len();
    if n < 5 {
        return Err(RecorderError::InvalidName);
    }
    let mut i: usize = 0;
    while i < n
        invariant
            0 <= i <= n,
            n == name@.len(),
            forall|k: int| 0 <= k < i ==> name@[k] != '/' && name@[k] != '\\' && name@[k] != ':',
        decreases n - i,
    {
        let c = name.get_char(i);
        if c == '/' || c == '\\' || c == ':' {
            return Err(RecorderError::InvalidName);
        }
        i = i + 1;
    }
    if !check_csv_extension(name) {
        return Err(RecorderError::InvalidName);
    }
    Ok(())
}

/// Lexicographic order on names, by character code.
pub open spec fn lex_leq(a: Seq<char>, b: Seq<char>) -> bool
    decreases a.len(),
{
    if a.len() == 0 {
        true
    } else if b.len() == 0 {
        false
    } else if a[0] != b[0] {
        a[0] < b[0]
    } else {
        lex_leq(a.skip(1), b.skip(1))
    }
}

/// `x` placed into `s` before the first member not below it.
pub open spec fn insert_sorted(x: Seq<char>, s: Seq<Seq<char>>) -> Seq<Seq<char>>
    decreases s.len(),
{
    if s.len() == 0 {
        seq![x]
    } else if lex_leq(x, s[0]) {
        seq![x] + s
    } else {
        seq![s[0]] + insert_sorted(x, s.skip(1))
    }
}

/// The names in ascending lexicographic order, duplicates kept: each name
/// inserted in turn into the sorted arrangement of the ones before it.
pub open spec fn sort_names(s: Seq<Seq<char>>) -> Seq<Seq<char>>
    decreases s.len(),
{
    if s.len() == 0 {
        s
    } else {
        insert_sorted(s.last(), sort_names(s.drop_last()))
    }
}

/// Ascending lexicographic order throughout.
pub open spec fn sorted_names(s: Seq<Seq<char>>) -> bool {
    forall|i: int, j: int| 0 <= i < j < s.len() ==> lex_leq(s[i], s[j])
}

/// The order is total.
proof fn lemma_lex_leq_total(a: Seq<char>, b: Seq<char>)
    ensures
        lex_leq(a, b) || lex_leq(b, a),
    decreases a.len(),
{
    if a.len() > 0 && b.len() > 0 && a[0] == b[0] {
        lemma_lex_leq_total(a.skip(1), b.skip(1));
    }
}

/// The order is transitive.
proof fn lemma_lex_leq_trans(a: Seq<char>, b: Seq<char>, c: Seq<char>)
    requires
        lex_leq(a, b),
        lex_leq(b, c),
    ensures
        lex_leq(a, c),
    decreases a.len(),
{
    if a.len() > 0 && b.len() > 0 && c.len() > 0 && a[0] == b[0] && b[0] == c[0] {
        lemma_lex_leq_trans(a.skip(1), b.skip(1), c.skip(1));
    }
}

/// An insertion holds the inserted name and the names already there.
proof fn lemma_insert_sorted_elems(x: Seq<char>, s: Seq<Seq<char>>)
    ensures
        insert_sorted(x, s).len() == s.len() + 1,
        forall|k: int|
            0 <= k < insert_sorted(x, s).len() ==> insert_sorted(x, s)[k] == x || s.contains(
                #[trigger] insert_sorted(x, s)[k],
            ),
    decreases s.len(),
{
    if s.len() == 0 {
    } else if lex_leq(x, s[0]) {
        let r = seq![x] + s;
        assert forall|k: int| 0 <= k < r.len() implies r[k] == x || s.contains(#[trigger] r[k]) by {
            if k > 0 {
                assert(r[k] == s[k - 1]);
            }
        }
    } else {
        lemma_insert_sorted_elems(x, s.skip(1));
        let ins = insert_sorted(x, s.skip(1));
        let r = seq![s[0]] + ins;
        assert forall|k: int| 0 <= k < r.len() implies r[k] == x || s.contains(#[trigger] r[k]) by {
            if k == 0 {
                assert(r[0] == s[0]);
                assert(s.contains(s[0]));
            } else {
                let y = ins[k - 1];
                assert(r[k] == y);
                if y != x {
                    assert(s.skip(1).contains(y));
                    let m = choose|m: int| 0 <= m < s.skip(1).len() && s.skip(1)[m] == y;
                    assert(s[m + 1] == y);
                    assert(s.contains(y));
                }
            }
        }
    }
}

/// Insertion keeps the arrangement sorted.
proof fn lemma_insert_sorted_sorted(x: Seq<char>, s: Seq<Seq<char>>)
    requires
        sorted_names(s),
    ensures
        sorted_names(insert_sorted(x, s)),
    decreases s.len(),
{
    if s.len() == 0 {
    } else if lex_leq(x, s[0]) {
        let r = seq![x] + s;
        assert forall|i: int, j: int| 0 <= i < j < r.len() implies lex_leq(r[i], r[j]) by {
            if i == 0 {
                assert(r[j] == s[j - 1]);
                if j > 1 {
                    assert(lex_leq(s[0], s[j - 1]));
                    lemma_lex_leq_trans(x, s[0], s[j - 1]);
                }
            } else {
                assert(r[i] == s[i - 1] && r[j] == s[j - 1]);
            }
        }
    } else {
        lemma_lex_leq_total(x, s[0]);
        assert forall|i: int, j: int|
            0 <= i < j < s.skip(1).len() implies lex_leq(s.skip(1)[i], s.skip(1)[j]) by {
            assert(s.skip(1)[i] == s[i + 1] && s.skip(1)[j] == s[j + 1]);
        }
        lemma_insert_sorted_sorted(x, s.skip(1));
        lemma_insert_sorted_elems(x, s.skip(1));
        let ins = insert_sorted(x, s.skip(1));
        let r = seq![s[0]] + ins;
        assert forall|i: int, j: int| 0 <= i < j < r.len() implies lex_leq(r[i], r[j]) by {
            if i == 0 {
                let y = ins[j - 1];
                assert(r[j] == y);
                if y == x {
                    assert(lex_leq(s[0], x));
                } else {
                    assert(s.skip(1).contains(y));
                    let m = choose|m: int| 0 <= m < s.skip(1).len() && s.skip(1)[m] == y;
                    assert(s[m + 1] == y);
                    assert(lex_leq(s[0], s[m + 1]));
                }
            } else {
                assert(r[i] == ins[i - 1] && r[j] == ins[j - 1]);
            }
        }
    }
}

/// The arrangement `sort_names` yields is sorted.
pub proof fn lemma_sort_names_sorted(s: Seq<Seq<char>>)
    ensures
        sorted_names(sort_names(s)),
    decreases s.len(),
{
    if s.len() > 0 {
        lemma_sort_names_sorted(s.drop_last());
        lemma_insert_sorted_sorted(s.last(), sort_names(s.drop_last()));
    }
}

/// Is `a` at or before `b` in lexicographic order?
pub fn str_lex_leq(a: &str, b: &str) -> (r: bool)
    ensures
        r == lex_leq(a@, b@),
{
    let la = a.unicode_len();
    let lb = b.unicode_len();
    let mut i: usize = 0;
    proof {
        assert(a@.skip(0) =~= a@);
        assert(b@.skip(0) =~= b@);
    }
    loop
        invariant
            i <= la,
            i <= lb,
            la == a@.len(),
            lb == b@.len(),
            lex_leq(a@, b@) == lex_leq(a@.skip(i as int), b@.skip(i as int)),
        decreases la - i,
    {
        if i >= la {
            proof {
                assert(a@.skip(i as int).len() == 0);
            }
            return true;
        }
        if i >= lb {
            proof {
                assert(b@.skip(i as int).len() == 0);
                assert(a@.skip(i as int).len() > 0);
            }
            return false;
        }
        let ca = a.get_char(i);
        let cb = b.get_char(i);
        proof {
            assert(a@.skip(i as int)[0] == ca);
            assert(b@.skip(i as int)[0] == cb);
        }
        if ca != cb {
            return (ca as u32) < (cb as u32);
        }
        proof {
            assert(a@.skip(i as int).skip(1) =~= a@.skip(i + 1 as int));
            assert(b@.skip(i as int).skip(1) =~= b@.skip(i + 1 as int));
        }
        i = i + 1;
    }
}

/// Where the insertion point lies, the insertion splits the arrangement.
proof fn lemma_insert_sorted_at(x: Seq<char>, s: Seq<Seq<char>>, p: int)
    requires
        0 <= p <= s.len(),
        forall|k: int| 0 <= k < p ==> !lex_leq(x, #[trigger] s[k]),
        p < s.len() ==> lex_leq(x, s[p]),
    ensures
        insert_sorted(x, s) == s.subrange(0, p) + seq![x] + s.skip(p),
    decreases s.len(),
{
    if s.len() == 0 {
        assert(s.subrange(0, 0) + seq![x] + s.skip(0) =~= seq![x]);
    } else if p == 0 {
        assert(s.subrange(0, 0) + seq![x] + s.skip(0) =~= seq![x] + s);
    } else {
        assert(!lex_leq(x, s[0]));
        assert forall|k: int| 0 <= k < p - 1 implies !lex_leq(x, #[trigger] s.skip(1)[k]) by {
            assert(s.skip(1)[k] == s[k + 1]);
        }
        if p - 1 < s.skip(1).len() {
            assert(s.skip(1)[p - 1] == s[p]);
        }
        lemma_insert_sorted_at(x, s.skip(1), p - 1);
        assert(seq![s[0]] + (s.skip(1).subrange(0, p - 1) + seq![x] + s.skip(1).skip(p - 1)) =~= s
            .subrange(0, p) + seq![x] + s.skip(p));
    }
}

/// Insert one name into an already arranged vector at its ordered place.
fn insert_name_sorted(out: &mut Vec<String>, x: String)
    ensures
        final(out).deep_view() == insert_sorted(x@, old(out).deep_view()),
{
    let ghost s = old(out).deep_view();
    proof {
        assert(s.len() == old(out)@.len());
    }
    let mut p: usize = 0;
    while p < out.len() && !str_lex_leq(x.as_str(), out[p].as_str())
        invariant
            p <= out@.len(),
            out@ == old(out)@,
            s == out.deep_view(),
            s.len() == out@.len(),
            forall|k: int| 0 <= k < s.len() ==> s[k] == out@[k]@,
            forall|k: int| 0 <= k < p ==> !lex_leq(x@, #[trigger] s[k]),
        decreases out@.len() - p,
    {
        p = p + 1;
    }
    proof {
        if p < out@.len() {
            assert(lex_leq(x@, s[p as int]));
        }
        lemma_insert_sorted_at(x@, s, p as int);
    }
    let ghost before = out@;
    out.insert(p, x);
    proof {
        assert(out@ == before.insert(p as int, x));
        assert(out.deep_view() =~= s.subrange(0, p as int) + seq![x@] + s.skip(p as int));
    }
}

/// Keep exactly the names that end in `.csv`, arranged in ascending
/// lexicographic order (by character code) so that the listing is
/// deterministic whatever order the listing collaborator hands them over
/// in.
pub fn filter_recordings(names: &Vec<String>) -> (r: Vec<String>)
    ensures
        r.deep_view() == sort_names(names.deep_view().filter(|t: Seq<char>| has_csv_extension(t))),
        sorted_names(r.deep_view()),
{
    let mut out: Vec<String> = Vec::new();
    let mut i: usize = 0;
    proof {
        reveal(Seq::filter);
        assert(names.deep_view().take(0) =~= Seq::<Seq<char>>::empty());
        assert(out.deep_view() =~= Seq::<Seq<char>>::empty());
    }
    while i < names.len()
        invariant
            0 <= i <= names@.len(),
            names.deep_view().len() == names@.len(),
            forall|k: int| 0 <= k < names@.len() ==> names.deep_view()[k] == names@[k]@,
            out.deep_view() == sort_names(
                names.deep_view().take(i as int).filter(|t: Seq<char>| has_csv_extension(t)),
            ),
        decreases names@.len() - i,
    {
        let ghost prefix = names.deep_view().take(i as int);
        let ghost kept = prefix.filter(|t: Seq<char>| has_csv_extension(t));
        let keep = check_csv_extension(names[i].as_str());
        if keep {
            insert_name_sorted(&mut out, names[i].clone());
        }
        proof {
            reveal(Seq::filter);
            let next = names.deep_view().take(i + 1 as int);
            assert(next =~= prefix.push(names@[i as int]@));
            assert(next.drop_last() =~= prefix);
            assert(next.last() == names@[i as int]@);
            if keep {
                let grown = kept.push(names@[i as int]@);
                assert(next.filter(|t: Seq<char>| has_csv_extension(t)) == grown);
                assert(grown.len() > 0);
                assert(grown.drop_last() =~= kept);
                assert(grown.last() == names@[i as int]@);
                assert(sort_names(grown) == insert_sorted(names@[i as int]@, sort_names(kept)));
            } else {
                assert(next.filter(|t: Seq<char>| has_csv_extension(t)) == kept);
            }
        }
        i = i + 1;
    }
    proof {
        assert(names.deep_view().take(names@.len() as int) =~= names.deep_view());
        lemma_sort_names_sorted(names.deep_view().filter(|t: Seq<char>| has_csv_extension(t)));
    }
    out
}

} // verus!
