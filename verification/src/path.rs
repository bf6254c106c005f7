//! Paths as plain strings: components joined by `/`.
//!
//! Ancestry is decided on the text alone. A path `d` lies above a path `p`
//! when `d` is what is left of `p` after cutting it just before one of its
//! separators; the file system root `/` lies above every other absolute path.
//! The components `.` and `..` are names like any other: nothing is resolved
//! against the file system.

use vstd::prelude::*;
use vstd::string::*;

verus! {

/// The character that separates the components of a path.
pub const SEPARATOR: char = '/';

/// `d` is a proper ancestor of `p`.
pub open spec fn is_ancestor(d: Seq<char>, p: Seq<char>) -> bool {
    &&& 0 < d.len() < p.len()
    &&& p.subrange(0, d.len() as int) == d
    &&& (p[d.len() as int] == SEPARATOR || d == seq![SEPARATOR])
}

/// `p` is `d` itself or lies somewhere beneath it.
pub open spec fn within(d: Seq<char>, p: Seq<char>) -> bool {
    d == p || is_ancestor(d, p)
}

/// `d` is one of the paths from `p` upwards to `root`, both ends included.
pub open spec fn on_chain(root: Seq<char>, d: Seq<char>, p: Seq<char>) -> bool {
    within(root, d) && within(d, p)
}

/// Ancestry is transitive: what lies beneath `b` lies beneath everything above `b`.
pub proof fn lemma_within_transitive(a: Seq<char>, b: Seq<char>, c: Seq<char>)
    requires
        within(a, b),
        within(b, c),
    ensures
        within(a, c),
{
    if a != b && b != c {
        assert(c.subrange(0, a.len() as int) =~= b.subrange(0, a.len() as int));
        assert(c[a.len() as int] == b.subrange(0, a.len() as int + 1)[a.len() as int]);
        assert(b[a.len() as int] == c.subrange(0, b.len() as int)[a.len() as int]);
    }
}

/// Two paths that lie above a common path are comparable: one lies above the other.
pub proof fn lemma_ancestors_comparable(a: Seq<char>, b: Seq<char>, p: Seq<char>)
    requires
        within(a, p),
        within(b, p),
        a.len() <= b.len(),
    ensures
        within(a, b),
{
    if a != p && b != p {
        if a.len() == b.len() {
            assert(a =~= b);
        } else {
            assert(b.subrange(0, a.len() as int) =~= p.subrange(0, a.len() as int));
            assert(b[a.len() as int] == p.subrange(0, b.len() as int)[a.len() as int]);
        }
    } else if a == p {
        assert(a =~= b);
    }
}

/// The characters of `s`, one by one.
fn chars_of(s: &str) -> (v: Vec<char>)
    ensures
        v@ == s@,
{
    broadcast use vstd::string::group_string_axioms;

    let mut v: Vec<char> = Vec::new();
    let all = s.chars();
    for c in it: all
        invariant
            it.seq() == s@,
            v@ == s@.take(it.index() as int),
    {
        v.push(c);
    }
    v
}

/// Whether `p` is `d` itself or lies beneath it, decided on the characters.
fn chars_within(d: &Vec<char>, p: &Vec<char>) -> (b: bool)
    ensures
        b == within(d@, p@),
{
    let m = d.len();
    let n = p.len();
    if m > n {
        return false;
    }
    let mut k: usize = 0;
    while k < m
        invariant
            k <= m <= n,
            m == d.len(),
            n == p.len(),
            forall|j: int| 0 <= j < k ==> d[j] == p[j],
        decreases m - k,
    {
        if d[k] != p[k] {
            assert(p@.subrange(0, m as int)[k as int] == p[k as int]);
            return false;
        }
        k += 1;
    }
    assert(p@.subrange(0, m as int) =~= d@);
    if m == n {
        assert(p@ =~= p@.subrange(0, m as int));
        return true;
    }
    assert(d@ == seq![SEPARATOR] <==> m == 1 && d[0] == SEPARATOR) by {
        if m == 1 && d[0] == SEPARATOR {
            assert(d@ =~= seq![SEPARATOR]);
        }
    }
    m > 0 && (p[m] == SEPARATOR || (m == 1 && d[0] == SEPARATOR))
}

/// Whether `path` is `dir` itself or lies somewhere beneath it.
pub fn lies_within(path: &str, dir: &str) -> (b: bool)
    ensures
        b == within(dir@, path@),
{
    let d = chars_of(dir);
    let p = chars_of(path);
    chars_within(&d, &p)
}

/// The paths from `path` upwards to `root`, nearest first: `path` itself,
/// then each directory above it, ending with `root`. Empty when `path` does
/// not lie within `root`.
pub fn lineage(root: &str, path: &str) -> (chain: Vec<String>)
    ensures
        forall|d: Seq<char>|
            on_chain(root@, d, path@) <==> exists|i: int|
                0 <= i < chain.len() && #[trigger] chain[i]@ == d,
        forall|i: int, j: int|
            0 <= i < j < chain.len() ==> chain[j]@.len() < chain[i]@.len(),
        chain.len() > 0 <==> within(root@, path@),
        chain.len() > 0 ==> chain[0]@ == path@ && chain[chain.len() - 1]@ == root@,
{
    let r = chars_of(root);
    let p = chars_of(path);
    let mut chain: Vec<String> = Vec::new();
    if !chars_within(&r, &p) {
        assert forall|d: Seq<char>| !on_chain(root@, d, path@) by {
            if on_chain(root@, d, path@) {
                lemma_within_transitive(root@, d, path@);
            }
        }
        return chain;
    }
    let n = p.len();
    let m = r.len();
    chain.push(path.to_owned());
    let low: usize = if m > 1 { m } else { 1 };
    let mut i: usize = n;
    while i > low
        invariant
            i <= n,
            low <= i || i == n,
            n == p.len(),
            m == r.len(),
            low == if m > 1 { m } else { 1usize },
            p@ == path@,
            r@ == root@,
            within(root@, path@),
            chain.len() > 0,
            chain[0]@ == path@,
            forall|a: int, b: int|
                0 <= a < b < chain.len() ==> chain[b]@.len() < chain[a]@.len(),
            forall|a: int|
                0 < a < chain.len() ==> i <= (#[trigger] chain[a]@).len() < n && chain[a]@
                    == path@.subrange(0, chain[a]@.len() as int) && path@[chain[a]@.len() as int]
                    == SEPARATOR,
            forall|k: int|
                i <= k < n && path@[k] == SEPARATOR ==> exists|a: int|
                    0 < a < chain.len() && #[trigger] chain[a]@ == path@.subrange(0, k),
        decreases i,
    {
        let ghost before = chain@;
        i -= 1;
        if p[i] == SEPARATOR {
            let cut = path.substring_char(0, i);
            chain.push(cut.to_owned());
        }
        proof {
            assert forall|k: int| i <= k < n && path@[k] == SEPARATOR implies exists|a: int|
                0 < a < chain.len() && #[trigger] chain[a]@ == path@.subrange(0, k) by {
                if k == i {
                    assert(chain[chain.len() - 1]@ == path@.subrange(0, k));
                } else {
                    let a = choose|a: int|
                        0 < a < before.len() && #[trigger] before[a]@ == path@.subrange(0, k);
                    assert(chain[a]@ == path@.subrange(0, k));
                }
            }
        }
    }
    let ghost body = chain@;
    if m == 1 && n > 1 && r[0] == SEPARATOR && p[1] != SEPARATOR {
        chain.push(root.to_owned());
    }
    proof {
        assert(root@ == seq![SEPARATOR] <==> m == 1 && r[0] == SEPARATOR) by {
            if m == 1 && r[0] == SEPARATOR {
                assert(root@ =~= seq![SEPARATOR]);
            }
        }
        assert forall|d: Seq<char>| on_chain(root@, d, path@) implies exists|a: int|
            0 <= a < chain.len() && #[trigger] chain[a]@ == d by {
            if d != path@ {
                let k = d.len() as int;
                if path@[k] == SEPARATOR {
                    let a = choose|a: int|
                        0 < a < body.len() && #[trigger] body[a]@ == path@.subrange(0, k);
                    assert(chain[a]@ == d);
                } else {
                    assert(d == seq![SEPARATOR]);
                    assert(root@ == d);
                    assert(chain[chain.len() - 1]@ == d);
                }
            } else {
                assert(chain[0]@ == d);
            }
        }
        assert forall|d: Seq<char>|
            (exists|a: int| 0 <= a < chain.len() && #[trigger] chain[a]@ == d) implies on_chain(
            root@,
            d,
            path@,
        ) by {
            let a = choose|a: int| 0 <= a < chain.len() && #[trigger] chain[a]@ == d;
            if a == 0 {
            } else if a < body.len() {
                lemma_ancestors_comparable(root@, d, path@);
            } else {
            }
        }
        if root@ != path@ {
            let d = root@;
            assert(on_chain(root@, d, path@));
            let a = choose|a: int| 0 <= a < chain.len() && #[trigger] chain[a]@ == d;
            if a < chain.len() - 1 {
                assert(chain[chain.len() - 1]@.len() < chain[a]@.len());
                let e = chain[chain.len() - 1]@;
                assert(on_chain(root@, e, path@));
            }
        } else {
            if chain.len() > 1 {
                let e = chain[1]@;
                assert(on_chain(root@, e, path@));
            }
        }
    }
    chain
}

/// Whether the character at `i` survives when runs of separators are
/// squeezed to one: every character does, but a separator that directly
/// follows another.
pub open spec fn survives(raw: Seq<char>, i: int) -> bool {
    !(raw[i] == SEPARATOR && i > 0 && raw[i - 1] == SEPARATOR)
}

/// `raw` with every run of separators squeezed to a single one.
pub open spec fn squeezed(raw: Seq<char>) -> Seq<char>
    decreases raw.len(),
{
    if raw.len() == 0 {
        raw
    } else if survives(raw, raw.len() - 1) {
        squeezed(raw.drop_last()).push(raw.last())
    } else {
        squeezed(raw.drop_last())
    }
}

/// The normal form of `raw`: runs of separators squeezed to one, and no
/// separator at the end, unless the separator is all there is.
pub open spec fn normal_form(raw: Seq<char>) -> Seq<char> {
    let s = squeezed(raw);
    if s.len() > 1 && s.last() == SEPARATOR {
        s.drop_last()
    } else {
        s
    }
}

/// `p` is in normal form: no two separators in a row and none at the end,
/// unless `p` is the separator alone.
pub open spec fn is_normal(p: Seq<char>) -> bool {
    &&& forall|i: int| 0 < i < p.len() ==> !(#[trigger] p[i] == SEPARATOR && p[i - 1] == SEPARATOR)
    &&& p.len() > 1 ==> p.last() != SEPARATOR
}

/// std's `String::push` appends the given character to the end of the string.
pub assume_specification[ String::push ](s: &mut String, c: char)
    ensures
        final(s)@ == old(s)@.push(c),
;

/// What squeezing leaves: no two separators in a row, the same last
/// character, and nothing at all only of nothing.
proof fn lemma_squeezed(raw: Seq<char>)
    ensures
        forall|i: int|
            0 < i < squeezed(raw).len() ==> !(#[trigger] squeezed(raw)[i] == SEPARATOR
                && squeezed(raw)[i - 1] == SEPARATOR),
        squeezed(raw).len() <= raw.len(),
        raw.len() > 0 ==> squeezed(raw).len() > 0 && squeezed(raw).last() == raw.last(),
    decreases raw.len(),
{
    if raw.len() > 0 {
        lemma_squeezed(raw.drop_last());
    }
}

/// The normal form of a path, as an owned string.
pub fn normalize(raw: &str) -> (out: String)
    ensures
        out@ == normal_form(raw@),
{
    broadcast use vstd::string::group_string_axioms;

    let mut out = String::new();
    let mut pending = false;
    let all = raw.chars();
    for c in it: all
        invariant
            it.seq() == raw@,
            pending ==> squeezed(raw@.take(it.index())).len() > 0 && squeezed(
                raw@.take(it.index()),
            ).last() == SEPARATOR && out@ == squeezed(raw@.take(it.index())).drop_last(),
            !pending ==> out@ == squeezed(raw@.take(it.index())) && (out@.len() > 0
                ==> out@.last() != SEPARATOR),
            it.index() > 0 ==> (pending <==> raw@[it.index() - 1] == SEPARATOR),
    {
        let ghost k = it.index();
        proof {
            let next = raw@.take(k + 1);
            assert(next.drop_last() =~= raw@.take(k));
            assert(next.last() == c);
            lemma_squeezed(raw@.take(k));
        }
        if c == SEPARATOR {
            if !pending {
                assert(squeezed(raw@.take(k + 1)).drop_last() =~= squeezed(raw@.take(k)));
            }
            pending = true;
        } else {
            if pending {
                out.push(SEPARATOR);
                assert(out@ =~= squeezed(raw@.take(k)));
            }
            out.push(c);
            pending = false;
        }
    }
    proof {
        assert(raw@.take(raw@.len() as int) =~= raw@);
    }
    if pending && out.as_str().is_empty() {
        out.push(SEPARATOR);
        assert(out@ =~= squeezed(raw@));
    }
    out
}

/// Normalizing yields a path in normal form.
pub proof fn lemma_normal_form_is_normal(raw: Seq<char>)
    ensures
        is_normal(normal_form(raw)),
{
    lemma_squeezed(raw);
    let s = squeezed(raw);
    if s.len() > 1 && s.last() == SEPARATOR {
        let t = s.drop_last();
        assert forall|i: int| 0 < i < t.len() implies !(#[trigger] t[i] == SEPARATOR && t[i - 1]
            == SEPARATOR) by {
            assert(t[i] == s[i]);
        }
        if t.len() > 1 {
            assert(t.last() == s[s.len() - 2]);
            assert(s[s.len() - 1] == SEPARATOR);
        }
    }
}

/// A path in normal form is its own normal form.
pub proof fn lemma_normal_is_fixed(p: Seq<char>)
    requires
        is_normal(p),
    ensures
        normal_form(p) == p,
{
    lemma_squeeze_keeps(p, p.len() as int);
    assert(p.take(p.len() as int) =~= p);
}

/// Squeezing changes no prefix of a path without two separators in a row.
proof fn lemma_squeeze_keeps(p: Seq<char>, k: int)
    requires
        0 <= k <= p.len(),
        forall|i: int| 0 < i < p.len() ==> !(#[trigger] p[i] == SEPARATOR && p[i - 1] == SEPARATOR),
    ensures
        squeezed(p.take(k)) == p.take(k),
    decreases k,
{
    if k > 0 {
        lemma_squeeze_keeps(p, k - 1);
        assert(p.take(k).drop_last() =~= p.take(k - 1));
        assert(p.take(k).last() == p[k - 1]);
        if k > 1 {
            assert(p.take(k)[k - 2] == p[k - 2]);
        }
        assert(p.take(k - 1).push(p[k - 1]) =~= p.take(k));
    }
}

} // verus!
