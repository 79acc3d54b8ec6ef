//! Literal placeholder search, replacement and splitting on character sequences.

use vstd::prelude::*;

verus! {

/// `pat` stands in `s` starting at index `i`.
pub open spec fn occurs_at(s: Seq<char>, pat: Seq<char>, i: int) -> bool {
    0 <= i && i + pat.len() <= s.len() && s.subrange(i, i + pat.len()) == pat
}

/// Least index at or after `i` where `pat` stands in `s`, or -1 when there is none.
pub open spec fn index_from(s: Seq<char>, pat: Seq<char>, i: int) -> int
    decreases s.len() + 1 - i,
{
    if i < 0 || i > s.len() {
        -1
    } else if occurs_at(s, pat, i) {
        i
    } else {
        index_from(s, pat, i + 1)
    }
}

/// Index of the first occurrence of `pat` in `s`, or -1 when it does not occur.
pub open spec fn index_of(s: Seq<char>, pat: Seq<char>) -> int {
    index_from(s, pat, 0)
}

/// What stands before the first occurrence of `pat` in `s`.
pub open spec fn head_of(s: Seq<char>, pat: Seq<char>) -> Seq<char> {
    s.subrange(0, index_of(s, pat))
}

/// What stands after the first occurrence of `pat` in `s`.
pub open spec fn tail_of(s: Seq<char>, pat: Seq<char>) -> Seq<char> {
    s.subrange(index_of(s, pat) + pat.len(), s.len() as int)
}

/// The first occurrence found is an occurrence, and none stands before it.
pub proof fn lemma_index_from(s: Seq<char>, pat: Seq<char>, i: int)
    requires
        0 <= i,
    ensures
        index_from(s, pat, i) == -1 || (i <= index_from(s, pat, i) && occurs_at(
            s,
            pat,
            index_from(s, pat, i),
        )),
        index_from(s, pat, i) == -1 ==> forall|k: int| i <= k ==> !occurs_at(s, pat, k),
        forall|k: int| i <= k < index_from(s, pat, i) ==> !occurs_at(s, pat, k),
    decreases s.len() + 1 - i,
{
    if i <= s.len() && !occurs_at(s, pat, i) {
        lemma_index_from(s, pat, i + 1);
        assert forall|k: int| i <= k < index_from(s, pat, i) implies !occurs_at(s, pat, k) by {
            if k > i {
            }
        }
        assert(index_from(s, pat, i) == -1 ==> forall|k: int| i <= k ==> !occurs_at(s, pat, k)) by {
            if index_from(s, pat, i) == -1 {
                assert forall|k: int| i <= k implies !occurs_at(s, pat, k) by {
                    if k > i {
                    }
                }
            }
        }
    }
}

/// Every occurrence of the non-empty `pat`, taken left to right without
/// overlap, replaced by `rep`.
pub open spec fn replace_all(s: Seq<char>, pat: Seq<char>, rep: Seq<char>) -> Seq<char>
    decreases s.len(),
{
    if pat.len() == 0 || s.len() < pat.len() {
        s
    } else if s.subrange(0, pat.len() as int) == pat {
        rep + replace_all(s.subrange(pat.len() as int, s.len() as int), pat, rep)
    } else {
        seq![s[0]] + replace_all(s.drop_first(), pat, rep)
    }
}

/// Whether `pat` stands in `s` at index `i`.
fn matches_at(s: &str, n: usize, pat: &str, p: usize, i: usize) -> (r: bool)
    requires
        n == s@.len(),
        p == pat@.len(),
        i <= n,
    ensures
        r == occurs_at(s@, pat@, i as int),
{
    if p > n - i {
        return false;
    }
    let mut k: usize = 0;
    while k < p
        invariant
            n == s@.len(),
            p == pat@.len(),
            i + p <= n,
            k <= p,
            forall|t: int| 0 <= t < k ==> s@[i + t] == pat@[t],
        decreases p - k,
    {
        if s.get_char(i + k) != pat.get_char(k) {
            assert(s@.subrange(i as int, i + p)[k as int] != pat@[k as int]);
            return false;
        }
        k = k + 1;
    }
    assert(s@.subrange(i as int, i + p) =~= pat@);
    true
}

/// Index of the first occurrence of `pat` in `s`, if any.
pub fn find(s: &str, pat: &str) -> (r: Option<usize>)
    ensures
        r == (if index_of(s@, pat@) >= 0 {
            Some(index_of(s@, pat@) as usize)
        } else {
            None::<usize>
        }),
        r is Some ==> r->0 + pat@.len() <= s@.len(),
{
    proof {
        lemma_index_from(s@, pat@, 0);
    }
    let n = s.unicode_len();
    let p = pat.unicode_len();
    let mut i: usize = 0;
    while i < n
        invariant
            n == s@.len(),
            p == pat@.len(),
            i <= n,
            index_from(s@, pat@, i as int) == index_of(s@, pat@),
        decreases n - i,
    {
        if matches_at(s, n, pat, p, i) {
            return Some(i);
        }
        i = i + 1;
    }
    if matches_at(s, n, pat, p, n) {
        Some(n)
    } else {
        assert(index_from(s@, pat@, n + 1) == -1);
        None
    }
}

/// Splits `s` around the first occurrence of `pat`: `Some((before, after))`,
/// or `None` when `pat` does not occur.
pub fn split_once(s: &str, pat: &str) -> (r: Option<(String, String)>)
    ensures
        match r {
            Some((a, b)) => index_of(s@, pat@) >= 0 && a@ == head_of(s@, pat@) && b@ == tail_of(
                s@,
                pat@,
            ),
            None => index_of(s@, pat@) == -1,
        },
{
    proof {
        lemma_index_from(s@, pat@, 0);
    }
    let n = s.unicode_len();
    match find(s, pat) {
        Some(i) => {
            let p = pat.unicode_len();
            let a = String::from_str(s.substring_char(0, i));
            let b = String::from_str(s.substring_char(i + p, n));
            Some((a, b))
        },
        None => None,
    }
}

/// Replaces every occurrence of the non-empty `pat` in `s` by `rep`, left to right.
pub fn replace(s: &str, pat: &str, rep: &str) -> (r: String)
    requires
        pat@.len() > 0,
    ensures
        r@ == replace_all(s@, pat@, rep@),
{
    let n = s.unicode_len();
    let p = pat.unicode_len();
    let mut out = String::new();
    let mut start: usize = 0;
    let mut i: usize = 0;
    assert(s@.subrange(0, n as int) =~= s@);
    assert(out@ + s@.subrange(0, 0) =~= Seq::<char>::empty());
    while i < n
        invariant
            n == s@.len(),
            p == pat@.len(),
            p > 0,
            start <= i <= n,
            out@ + s@.subrange(start as int, i as int) + replace_all(
                s@.subrange(i as int, n as int),
                pat@,
                rep@,
            ) == replace_all(s@, pat@, rep@),
        decreases n - i,
    {
        let ghost t = s@.subrange(i as int, n as int);
        let ghost before = out@ + s@.subrange(start as int, i as int);
        if matches_at(s, n, pat, p, i) {
            proof {
                assert(t.subrange(0, p as int) =~= s@.subrange(i as int, i + p));
                assert(t.subrange(p as int, t.len() as int) =~= s@.subrange(i + p, n as int));
            }
            out.append(s.substring_char(start, i));
            out.append(rep);
            i = i + p;
            start = i;
            assert(s@.subrange(start as int, i as int) =~= Seq::<char>::empty());
            assert(out@ + s@.subrange(start as int, i as int) =~= before + rep@);
        } else {
            proof {
                if t.len() >= p {
                    assert(t.subrange(0, p as int) =~= s@.subrange(i as int, i + p));
                }
                assert(t.drop_first() =~= s@.subrange(i + 1, n as int));
                if t.len() < p {
                    assert(replace_all(t.drop_first(), pat@, rep@) == t.drop_first());
                    assert(t =~= seq![t[0]] + t.drop_first());
                }
                assert(s@.subrange(start as int, i + 1) =~= s@.subrange(start as int, i as int)
                    + seq![t[0]]);
            }
            i = i + 1;
        }
    }
    out.append(s.substring_char(start, n));
    assert(replace_all(s@.subrange(n as int, n as int), pat@, rep@) =~= Seq::<char>::empty());
    assert(out@ =~= replace_all(s@, pat@, rep@));
    out
}

} // verus!
