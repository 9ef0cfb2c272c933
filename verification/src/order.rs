//! The order of names and of paths: character by character, component by component.
use vstd::prelude::*;
use crate::path;
use crate::path::Path;
use crate::text;

verus! {

/// Whether `a` comes before `b`, of which the first `k` characters are alike.
pub open spec fn text_before(a: Seq<char>, b: Seq<char>, k: int) -> bool
    decreases b.len() - k,
{
    if k >= b.len() {
        false
    } else if k >= a.len() {
        true
    } else if a[k] != b[k] {
        text::number(a[k]) < text::number(b[k])
    } else {
        text_before(a, b, k + 1)
    }
}

/// Whether path `a` comes before path `b`, of which the first `k` components are alike.
pub open spec fn path_before(a: Seq<Seq<char>>, b: Seq<Seq<char>>, k: int) -> bool
    decreases b.len() - k,
{
    if k >= b.len() {
        false
    } else if k >= a.len() {
        true
    } else if a[k] != b[k] {
        text_before(a[k], b[k], 0)
    } else {
        path_before(a, b, k + 1)
    }
}

/// Whether path `a` comes before path `b`.
pub open spec fn before(a: Seq<Seq<char>>, b: Seq<Seq<char>>) -> bool {
    path_before(a, b, 0)
}

/// Whether every path comes before the next.
pub open spec fn ascending(s: Seq<Seq<Seq<char>>>) -> bool {
    forall|i: int, j: int| 0 <= i < j < s.len() ==> #[trigger] before(s[i], s[j])
}

/// How many paths at the front of `s`, from `i` on, come before `p`, counted from 0.
pub open spec fn place(s: Seq<Seq<Seq<char>>>, p: Seq<Seq<char>>, i: int) -> int
    decreases s.len() - i,
{
    if i < s.len() && before(s[i], p) {
        place(s, p, i + 1)
    } else {
        i
    }
}

proof fn lemma_text(a: Seq<char>, b: Seq<char>, c: Seq<char>, k: int)
    requires
        k >= 0,
    ensures
        !text_before(a, a, k),
        text_before(a, b, k) && text_before(b, c, k) ==> text_before(a, c, k),
        k <= a.len() && k <= b.len() && a.take(k) == b.take(k) && a != b ==> text_before(a, b, k)
            || text_before(b, a, k),
    decreases a.len() - k,
{
    if k < a.len() {
        lemma_text(a, b, c, k + 1);
    }
    if k <= a.len() && k <= b.len() && a.take(k) == b.take(k) && a != b {
        if k < a.len() && k < b.len() {
            if a[k] == b[k] {
                assert(a.take(k + 1) =~= a.take(k).push(a[k]));
                assert(b.take(k + 1) =~= b.take(k).push(b[k]));
            } else {
                text::char_has_one_number(a[k]);
                text::char_has_one_number(b[k]);
            }
        } else if k == a.len() && k == b.len() {
            assert(a.take(k) =~= a);
            assert(b.take(k) =~= b);
        }
    }
}

proof fn lemma_paths(a: Seq<Seq<char>>, b: Seq<Seq<char>>, c: Seq<Seq<char>>, k: int)
    requires
        k >= 0,
    ensures
        !path_before(a, a, k),
        path_before(a, b, k) && path_before(b, c, k) ==> path_before(a, c, k),
        k <= a.len() && k <= b.len() && a.take(k) == b.take(k) && a != b ==> path_before(a, b, k)
            || path_before(b, a, k),
    decreases a.len() - k,
{
    if k < a.len() {
        lemma_paths(a, b, c, k + 1);
    }
    if k < a.len() && k < b.len() && k < c.len() {
        lemma_text(a[k], b[k], c[k], 0);
    }
    if k < a.len() && k < b.len() {
        lemma_text(a[k], b[k], a[k], 0);
        assert(a[k].take(0) =~= b[k].take(0));
    }
    if k <= a.len() && k <= b.len() && a.take(k) == b.take(k) && a != b {
        if k < a.len() && k < b.len() {
            if a[k] == b[k] {
                assert(a.take(k + 1) =~= a.take(k).push(a[k]));
                assert(b.take(k + 1) =~= b.take(k).push(b[k]));
            }
        } else if k == a.len() && k == b.len() {
            assert(a.take(k) =~= a);
            assert(b.take(k) =~= b);
        }
    }
}

/// Of two paths one comes before the other, unless they are the same, in which case
/// neither does; and what comes before something comes before all that follows it.
pub proof fn paths_are_ordered(a: Seq<Seq<char>>, b: Seq<Seq<char>>, c: Seq<Seq<char>>)
    ensures
        !before(a, a),
        before(a, b) && before(b, c) ==> before(a, c),
        a != b ==> before(a, b) || before(b, a),
{
    assert(a.take(0) =~= b.take(0));
    lemma_paths(a, b, c, 0);
}

proof fn lemma_place(s: Seq<Seq<Seq<char>>>, p: Seq<Seq<char>>, i: int)
    requires
        0 <= i <= s.len(),
        forall|j: int| 0 <= j < i ==> before(#[trigger] s[j], p),
    ensures
        i <= place(s, p, i) <= s.len(),
        forall|j: int| 0 <= j < place(s, p, i) ==> before(#[trigger] s[j], p),
        place(s, p, i) < s.len() ==> !before(s[place(s, p, i)], p),
    decreases s.len() - i,
{
    if i < s.len() && before(s[i], p) {
        lemma_place(s, p, i + 1);
    }
}

/// A path stands in an ascending sequence at its place or nowhere, and put in there it
/// leaves the sequence ascending.
pub proof fn place_is_right(s: Seq<Seq<Seq<char>>>, p: Seq<Seq<char>>)
    requires
        ascending(s),
    ensures
        ({
            let n = place(s, p, 0);
            &&& 0 <= n <= s.len()
            &&& s.contains(p) <==> n < s.len() && s[n] == p
            &&& forall|j: int| 0 <= j < n ==> before(#[trigger] s[j], p)
            &&& !s.contains(p) ==> forall|j: int| n <= j < s.len() ==> before(p, #[trigger] s[j])
            &&& !s.contains(p) ==> ascending(s.insert(n, p))
        }),
{
    lemma_place(s, p, 0);
    let n = place(s, p, 0);
    if s.contains(p) {
        let j = choose|j: int| 0 <= j < s.len() && s[j] == p;
        paths_are_ordered(p, p, p);
        if j < n {
            assert(before(s[j], p));
        } else if n < j {
            assert(before(s[n], s[j]));
        }
    } else {
        assert forall|j: int| n <= j < s.len() implies before(p, #[trigger] s[j]) by {
            assert(s.contains(s[n]));
            paths_are_ordered(p, s[n], s[j]);
            if j > n {
                assert(before(s[n], s[j]));
            }
        }
        let t = s.insert(n, p);
        assert forall|i: int, j: int| 0 <= i < j < t.len() implies #[trigger] before(
            t[i],
            t[j],
        ) by {
            let x = if i < n {
                i
            } else {
                i - 1
            };
            let y = if j < n {
                j
            } else {
                j - 1
            };
            if i != n && j != n {
                assert(t[i] == s[x] && t[j] == s[y]);
                assert(before(s[x], s[y]));
            } else if i == n {
                assert(t[j] == s[y]);
                assert(before(p, s[y]));
            } else {
                assert(t[i] == s[x]);
                assert(before(s[x], p));
            }
        }
    }
}

/// Taking a path out leaves the sequence ascending and without it.
pub proof fn removal_is_right(s: Seq<Seq<Seq<char>>>, n: int)
    requires
        ascending(s),
        0 <= n < s.len(),
    ensures
        ascending(s.remove(n)),
        !s.remove(n).contains(s[n]),
{
    let t = s.remove(n);
    assert forall|i: int, j: int| 0 <= i < j < t.len() implies #[trigger] before(t[i], t[j]) by {
        let x = if i < n {
            i
        } else {
            i + 1
        };
        let y = if j < n {
            j
        } else {
            j + 1
        };
        assert(t[i] == s[x] && t[j] == s[y]);
        assert(before(s[x], s[y]));
    }
    if t.contains(s[n]) {
        let i = choose|i: int| 0 <= i < t.len() && t[i] == s[n];
        let x = if i < n {
            i
        } else {
            i + 1
        };
        assert(s[x] == s[n]);
        paths_are_ordered(s[n], s[n], s[n]);
        if x < n {
            assert(before(s[x], s[n]));
        } else {
            assert(before(s[n], s[x]));
        }
    }
}

/// Whether one name comes before another.
pub fn text_less(a: &str, b: &str) -> (r: bool)
    ensures
        r == text_before(a@, b@, 0),
{
    let n: usize = a.unicode_len();
    let m: usize = b.unicode_len();
    let mut k: usize = 0;
    while k < n && k < m
        invariant
            n == a@.len(),
            m == b@.len(),
            k <= n,
            k <= m,
            text_before(a@, b@, 0) == text_before(a@, b@, k as int),
        decreases n - k,
    {
        let x: char = a.get_char(k);
        let y: char = b.get_char(k);
        if x != y {
            return (x as u32) < (y as u32);
        }
        k = k + 1;
    }
    k < m
}

/// Whether one path comes before another.
pub fn path_less(a: &Path, b: &Path) -> (r: bool)
    ensures
        r == before(a@, b@),
{
    let x = a.components();
    let y = b.components();
    let mut k: usize = 0;
    while k < x.len() && k < y.len()
        invariant
            a@ == path::names(x@),
            b@ == path::names(y@),
            k <= x@.len(),
            k <= y@.len(),
            before(a@, b@) == path_before(a@, b@, k as int),
        decreases x@.len() - k,
    {
        if x[k] != y[k] {
            return text_less(x[k].as_str(), y[k].as_str());
        }
        k = k + 1;
    }
    k < y.len()
}

} // verus!
