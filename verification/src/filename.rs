//! The last name in a file path and the extension on it, read the way the
//! platform's own paths read them: trailing separators do not count, a name
//! that is `.` or `..` is no file's name, and a name's leading dot does not
//! begin an extension.

use vstd::prelude::*;

verus! {

/// Where `p` ends once the separators it ends with are left off.
pub open spec fn trimmed_end(p: Seq<char>, m: int) -> int
    decreases m,
{
    if m > 0 && p[m - 1] == '/' {
        trimmed_end(p, m - 1)
    } else {
        m
    }
}

/// The last `c` before position `m`, or -1.
pub open spec fn last_before(p: Seq<char>, c: char, m: int) -> int
    decreases m,
{
    if m <= 0 {
        -1
    } else if p[m - 1] == c {
        m - 1
    } else {
        last_before(p, c, m - 1)
    }
}

/// Where the last name in `p` begins.
pub open spec fn name_start(p: Seq<char>) -> int {
    last_before(p, '/', trimmed_end(p, p.len() as int)) + 1
}

/// Where the last name in `p` ends.
pub open spec fn name_end(p: Seq<char>) -> int {
    trimmed_end(p, p.len() as int)
}

/// The last name in `p`, or `None` where there is none: an empty path, a
/// root, or one ending in `.` or `..`.
pub open spec fn file_name(p: Seq<char>) -> Option<Seq<char>> {
    let n = p.subrange(name_start(p), name_end(p));
    if n.len() == 0 || n == seq!['.'] || n == seq!['.', '.'] {
        None
    } else {
        Some(n)
    }
}

/// Where the extension's dot stands in the name `n`, or -1: the last dot, if
/// it is not the first character.
pub open spec fn dot_of(n: Seq<char>) -> int {
    let d = last_before(n, '.', n.len() as int);
    if d > 0 { d } else { -1 }
}

/// The extension on the last name in `p`.
pub open spec fn extension(p: Seq<char>) -> Option<Seq<char>> {
    match file_name(p) {
        None => None,
        Some(n) => if dot_of(n) > 0 {
            Some(n.subrange(dot_of(n) + 1, n.len() as int))
        } else {
            None
        },
    }
}

/// `p` with the extension on its last name replaced by `ext`, or taken off
/// where `ext` is empty; unchanged where `p` names no file.
pub open spec fn with_extension(p: Seq<char>, ext: Seq<char>) -> Seq<char> {
    match file_name(p) {
        None => p,
        Some(n) => {
            let stem_end = name_start(p) + if dot_of(n) > 0 { dot_of(n) } else { n.len() as int };
            p.subrange(0, stem_end) + if ext.len() > 0 { seq!['.'] + ext } else { Seq::empty() }
        },
    }
}

proof fn lemma_trimmed_end(p: Seq<char>, m: int)
    requires
        0 <= m <= p.len(),
    ensures
        0 <= trimmed_end(p, m) <= m,
    decreases m,
{
    if m > 0 && p[m - 1] == '/' {
        lemma_trimmed_end(p, m - 1);
    }
}

proof fn lemma_last_before(p: Seq<char>, c: char, m: int)
    requires
        0 <= m <= p.len(),
    ensures
        -1 <= last_before(p, c, m) < m,
        last_before(p, c, m) >= 0 ==> p[last_before(p, c, m)] == c,
    decreases m,
{
    if m > 0 && p[m - 1] != c {
        lemma_last_before(p, c, m - 1);
    }
}

/// Where `p` ends, separators at the end left off.
fn trimmed(p: &str) -> (m: usize)
    ensures
        m == trimmed_end(p@, p@.len() as int),
{
    let mut m = p.unicode_len();
    while m > 0 && p.get_char(m - 1) == '/'
        invariant
            m <= p@.len(),
            trimmed_end(p@, m as int) == trimmed_end(p@, p@.len() as int),
        decreases m,
    {
        m = m - 1;
    }
    m
}

/// The last `c` before `m`, if there is one.
fn last_of(p: &str, c: char, m: usize) -> (r: Option<usize>)
    requires
        m <= p@.len(),
    ensures
        match r {
            Some(i) => i as int == last_before(p@, c, m as int),
            None => last_before(p@, c, m as int) == -1,
        },
{
    let mut k = m;
    while k > 0
        invariant
            k <= m <= p@.len(),
            last_before(p@, c, k as int) == last_before(p@, c, m as int),
        decreases k,
    {
        if p.get_char(k - 1) == c {
            return Some(k - 1);
        }
        k = k - 1;
    }
    None
}

/// Where the last name in `p` begins and ends, if `p` names a file.
pub fn name_span(p: &str) -> (r: Option<(usize, usize)>)
    ensures
        match r {
            Some((s, e)) => file_name(p@) is Some && s == name_start(p@) && e == name_end(p@)
                && 0 <= s <= e <= p@.len(),
            None => file_name(p@) is None,
        },
{
    let e = trimmed(p);
    proof {
        lemma_trimmed_end(p@, p@.len() as int);
        lemma_last_before(p@, '/', e as int);
    }
    let s = match last_of(p, '/', e) {
        Some(i) => i + 1,
        None => 0,
    };
    let len = e - s;
    let ghost n = p@.subrange(s as int, e as int);
    if len == 0 {
        return None;
    }
    if len == 1 && p.get_char(s) == '.' {
        assert(n =~= seq!['.']);
        return None;
    }
    if len == 2 && p.get_char(s) == '.' && p.get_char(s + 1) == '.' {
        assert(n =~= seq!['.', '.']);
        return None;
    }
    assert(n.len() != 0);
    assert(n != seq!['.']) by {
        if len == 1 {
            assert(n[0] == p@[s as int]);
        }
    }
    assert(n != seq!['.', '.']) by {
        if len == 2 {
            assert(n[0] == p@[s as int]);
            assert(n[1] == p@[s + 1]);
        }
    }
    Some((s, e))
}

/// Where the extension's dot stands in `p`, counted from the start of `p`,
/// if the last name has one.
fn dot_in(p: &str, s: usize, e: usize) -> (r: Option<usize>)
    requires
        s <= e <= p@.len(),
    ensures
        match r {
            Some(d) => s < d < e && (d - s) as int == dot_of(p@.subrange(s as int, e as int)),
            None => dot_of(p@.subrange(s as int, e as int)) == -1,
        },
{
    let ghost n = p@.subrange(s as int, e as int);
    let mut k = e;
    while k > s
        invariant
            s <= k <= e <= p@.len(),
            n == p@.subrange(s as int, e as int),
            last_before(n, '.', (k - s) as int) == last_before(n, '.', n.len() as int),
        decreases k,
    {
        if p.get_char(k - 1) == '.' {
            assert(n[(k - 1 - s) as int] == p@[k - 1]);
            if k - 1 > s {
                return Some(k - 1);
            } else {
                return None;
            }
        }
        assert(n[(k - 1 - s) as int] == p@[k - 1]);
        k = k - 1;
    }
    None
}

/// Whether the last name in `p` carries an extension.
pub fn has_extension(p: &str) -> (b: bool)
    ensures
        b == (extension(p@) is Some),
{
    match name_span(p) {
        None => false,
        Some((s, e)) => {
            let d = dot_in(p, s, e);
            d.is_some()
        },
    }
}

/// `p` with the extension on its last name replaced by `ext`.
pub fn set_extension(p: &str, ext: &str) -> (r: String)
    ensures
        r@ == with_extension(p@, ext@),
{
    match name_span(p) {
        None => String::from_str(p),
        Some((s, e)) => {
            let stem_end = match dot_in(p, s, e) {
                Some(d) => d,
                None => e,
            };
            let mut r = String::from_str(p.substring_char(0, stem_end));
            if ext.unicode_len() > 0 {
                r.append(".");
                r.append(ext);
                proof {
                    reveal_strlit(".");
                }
                assert(r@ =~= with_extension(p@, ext@));
            } else {
                assert(r@ =~= with_extension(p@, ext@));
            }
            r
        },
    }
}

/// The extension on the last name in `p`, if it has one.
pub fn extension_of(p: &str) -> (r: Option<String>)
    ensures
        match r {
            Some(e) => extension(p@) == Some(e@),
            None => extension(p@) is None,
        },
{
    match name_span(p) {
        None => None,
        Some((s, e)) => match dot_in(p, s, e) {
            Some(d) => {
                let r = String::from_str(p.substring_char(d + 1, e));
                proof {
                    let n = p@.subrange(s as int, e as int);
                    assert(r@ =~= n.subrange(dot_of(n) + 1, n.len() as int));
                }
                Some(r)
            },
            None => None,
        },
    }
}

/// The last name in `p`, or the empty name where there is none.
pub fn file_name_of(p: &str) -> (r: String)
    ensures
        r@ == match file_name(p@) {
            Some(n) => n,
            None => Seq::<char>::empty(),
        },
{
    match name_span(p) {
        None => String::new(),
        Some((s, e)) => String::from_str(p.substring_char(s, e)),
    }
}


/// Past a stretch holding no `c`, the last `c` is the last one before it.
proof fn lemma_last_before_skips(s: Seq<char>, c: char, j: int, m: int)
    requires
        0 <= j <= m <= s.len(),
        forall|k: int| j <= k < m ==> s[k] != c,
    ensures
        last_before(s, c, m) == last_before(s, c, j),
    decreases m - j,
{
    if m > j {
        lemma_last_before_skips(s, c, j, m - 1);
    }
}

/// The last `c` before `m` depends on the first `m` characters alone.
proof fn lemma_last_before_agrees(s: Seq<char>, t: Seq<char>, c: char, m: int)
    requires
        0 <= m <= s.len(),
        m <= t.len(),
        forall|k: int| 0 <= k < m ==> s[k] == t[k],
    ensures
        last_before(s, c, m) == last_before(t, c, m),
    decreases m,
{
    if m > 0 {
        lemma_last_before_agrees(s, t, c, m - 1);
    }
}

/// Giving a path with no extension one extension and then another is giving
/// it the second, where neither holds a dot or a separator.
pub proof fn lemma_extension_twice(p: Seq<char>, a: Seq<char>, b: Seq<char>)
    requires
        extension(p) is None,
        a.len() > 0,
        forall|k: int| 0 <= k < a.len() ==> a[k] != '.' && a[k] != '/',
    ensures
        with_extension(with_extension(p, a), b) == with_extension(p, b),
{
    match file_name(p) {
        None => {},
        Some(n) => {
            let ns = name_start(p);
            let ne = name_end(p);
            lemma_trimmed_end(p, p.len() as int);
            lemma_last_before(p, '/', ne);
            lemma_last_before(n, '.', n.len() as int);
            assert(dot_of(n) <= 0);
            let q = with_extension(p, a);
            assert(q == p.subrange(0, ne) + (seq!['.'] + a));
            let tail = seq!['.'] + a;
            assert(q.len() == ne + 1 + a.len());
            // The end of `q` is no separator.
            assert(q[q.len() - 1] == a[a.len() - 1]);
            assert(trimmed_end(q, q.len() as int) == q.len());
            // Its last name begins where `p`'s did.
            assert forall|k: int| ne <= k < q.len() implies q[k] != '/' by {
                if k == ne {
                    assert(q[k] == '.');
                } else {
                    assert(q[k] == a[k - ne - 1]);
                }
            }
            lemma_last_before_skips(q, '/', ne, q.len() as int);
            lemma_last_before_agrees(q, p, '/', ne);
            assert(name_start(q) == ns);
            assert(name_end(q) == q.len());
            let n2 = q.subrange(ns, q.len() as int);
            assert(n2 =~= n + tail);
            assert(n2.len() >= 3);
            assert(n2 != seq!['.']);
            assert(n2 != seq!['.', '.']);
            assert(file_name(q) == Some(n2));
            // Its extension's dot is the one just written.
            assert forall|k: int| n.len() + 1 <= k < n2.len() implies n2[k] != '.' by {
                assert(n2[k] == a[k - n.len() - 1]);
            }
            lemma_last_before_skips(n2, '.', (n.len() + 1) as int, n2.len() as int);
            assert(n2[n.len() as int] == '.');
            assert(last_before(n2, '.', (n.len() + 1) as int) == n.len());
            assert(dot_of(n2) == n.len());
            assert(q.subrange(0, ns + n.len()) =~= p.subrange(0, ne));
        },
    }
}

} // verus!
