//! Substring matching by failure function: an automaton that is fed one
//! scalar at a time and tells whether what it was fed ends with its pattern.

use crate::grammar::ends_with;
use crate::text::to_chars;
use vstd::prelude::*;

verus! {

/// The first `k` scalars of `p` are the last `k` scalars of `t`.
spec fn overlaps(p: Seq<char>, t: Seq<char>, k: int) -> bool {
    &&& 0 <= k <= p.len()
    &&& k <= t.len()
    &&& forall|x: int| 0 <= x < k ==> #[trigger] p[x] == t[t.len() - k + x]
}

/// `m` is the greatest overlap of `p` with `t` below `bound`.
spec fn longest_below(p: Seq<char>, t: Seq<char>, m: int, bound: int) -> bool {
    &&& overlaps(p, t, m)
    &&& m < bound
    &&& forall|k: int| #[trigger] overlaps(p, t, k) && k < bound ==> k <= m
}

/// The entries 1 to `q` of the failure table are right: entry `x` is the
/// length of the longest prefix of `p` that is a proper suffix of the first `x`
/// scalars of `p`.
spec fn table_upto(p: Seq<char>, fail: Seq<usize>, q: int) -> bool {
    &&& q < fail.len()
    &&& forall|x: int| 1 <= x <= q ==> longest_below(p, p.take(x), #[trigger] fail[x] as int, x)
}

/// To end with the whole pattern is to overlap it in full.
proof fn lemma_overlaps_all(p: Seq<char>, t: Seq<char>)
    ensures
        overlaps(p, t, p.len() as int) <==> ends_with(t, p),
{
    if p.len() <= t.len() {
        let tail = t.subrange(t.len() - p.len(), t.len() as int);
        if overlaps(p, t, p.len() as int) {
            assert(tail =~= p);
        }
        if tail == p {
            assert forall|x: int| 0 <= x < p.len() implies #[trigger] p[x] == t[t.len() - p.len()
                + x] by {
                assert(tail[x] == p[x]);
            }
        }
    }
}

/// Within an overlap of length `m`, the text and the first `m` scalars of the
/// pattern have the same shorter overlaps.
proof fn lemma_shrink(p: Seq<char>, t: Seq<char>, m: int, k: int)
    requires
        overlaps(p, t, m),
        0 <= k <= m,
    ensures
        overlaps(p, t, k) <==> overlaps(p, p.take(m), k),
{
    let u = p.take(m);
    if overlaps(p, t, k) {
        assert forall|x: int| 0 <= x < k implies #[trigger] p[x] == u[u.len() - k + x] by {
            assert(p[m - k + x] == t[t.len() - m + (m - k + x)]);
        }
    }
    if overlaps(p, u, k) {
        assert forall|x: int| 0 <= x < k implies #[trigger] p[x] == t[t.len() - k + x] by {
            assert(p[m - k + x] == t[t.len() - m + (m - k + x)]);
            assert(p[x] == u[u.len() - k + x]);
        }
    }
}

/// An overlap grows by the scalar that follows it in the pattern.
proof fn lemma_grow(p: Seq<char>, t: Seq<char>, c: char, k: int)
    requires
        overlaps(p, t, k),
        k < p.len(),
        p[k] == c,
    ensures
        overlaps(p, t.push(c), k + 1),
{
    let u = t.push(c);
    assert forall|x: int| 0 <= x < k + 1 implies #[trigger] p[x] == u[u.len() - (k + 1) + x] by {
        if x < k {
            assert(p[x] == t[t.len() - k + x]);
        }
    }
}

/// An overlap with a text that ends in `c` is an overlap with the text
/// before, grown by `c`.
proof fn lemma_retract(p: Seq<char>, t: Seq<char>, c: char, k: int)
    requires
        overlaps(p, t.push(c), k),
        k > 0,
    ensures
        overlaps(p, t, k - 1),
        p[k - 1] == c,
{
    let u = t.push(c);
    assert(p[k - 1] == u[u.len() - k + (k - 1)]);
    assert forall|x: int| 0 <= x < k - 1 implies #[trigger] p[x] == t[t.len() - (k - 1) + x] by {
        assert(p[x] == u[u.len() - k + x]);
    }
}

/// How far the automaton has come: the length of the longest prefix of the
/// pattern that ends what was fed, and what was fed.
struct Progress {
    matched: usize,
    fed: Ghost<Seq<char>>,
}

/// A matcher for one pattern. It is fed scalars one by one and tells after
/// each whether the scalars fed so far end with the pattern.
pub struct Kmp<'a> {
    template: &'a str,
    pattern: Vec<char>,
    fail: Vec<usize>,
    progress: Progress,
}

/// The longest overlap of the pattern with the text grown by `c`, found from
/// the longest overlap `from` with the text itself by falling back along the
/// failure table.
fn extend(
    pattern: &Vec<char>,
    fail: &Vec<usize>,
    from: usize,
    c: char,
    Ghost(t): Ghost<Seq<char>>,
    Ghost(bound): Ghost<int>,
) -> (m: usize)
    requires
        from < pattern@.len(),
        bound <= pattern@.len(),
        longest_below(pattern@, t, from as int, bound),
        table_upto(pattern@, fail@, from as int),
    ensures
        longest_below(pattern@, t.push(c), m as int, bound + 1),
{
    let ghost p = pattern@;
    let mut y: usize = from;
    while y != 0 && pattern[y] != c
        invariant
            p == pattern@,
            y <= from < p.len(),
            bound <= p.len(),
            table_upto(p, fail@, from as int),
            overlaps(p, t, y as int),
            y < bound,
            forall|k: int| #[trigger] overlaps(p, t, k) && k < bound && p[k] == c ==> k <= y,
        decreases y,
    {
        let f: usize = fail[y];
        proof {
            assert(longest_below(p, p.take(y as int), f as int, y as int));
            lemma_shrink(p, t, y as int, f as int);
            assert forall|k: int| #[trigger] overlaps(p, t, k) && k < bound && p[k] == c implies k
                <= f by {
                lemma_shrink(p, t, y as int, k);
            }
        }
        y = f;
    }
    let ghost u = t.push(c);
    if pattern[y] == c {
        proof {
            assert(y < pattern.len());
            lemma_grow(p, t, c, y as int);
            assert forall|k: int| #[trigger] overlaps(p, u, k) && k < bound + 1 implies k <= y
                + 1 by {
                if k > 0 {
                    lemma_retract(p, t, c, k);
                }
            }
        }
        y + 1
    } else {
        proof {
            assert forall|k: int| #[trigger] overlaps(p, u, k) && k < bound + 1 implies k <= 0 by {
                if k > 0 {
                    lemma_retract(p, t, c, k);
                }
            }
        }
        y
    }
}

impl<'a> Kmp<'a> {
    #[verifier::type_invariant]
    spec fn inv(&self) -> bool {
        &&& self.pattern@ == self.template@
        &&& self.fail@.len() == self.pattern@.len() + 1
        &&& table_upto(self.pattern@, self.fail@, self.pattern@.len() as int)
        &&& longest_below(
            self.pattern@,
            self.progress.fed@,
            self.progress.matched as int,
            self.pattern@.len() as int + 1,
        )
    }

    /// The pattern that the matcher looks for.
    pub closed spec fn pattern(&self) -> Seq<char> {
        self.template@
    }

    /// The scalars fed since the matcher was made or last cleared.
    pub closed spec fn fed(&self) -> Seq<char> {
        self.progress.fed@
    }

    /// A matcher for `template` that has been fed nothing.
    pub fn new(template: &'a str) -> (k: Self)
        ensures
            k.pattern() == template@,
            k.fed() == Seq::<char>::empty(),
    {
        let pattern = to_chars(template);
        let ghost p = pattern@;
        let mut fail: Vec<usize> = Vec::new();
        fail.push(0);
        if pattern.len() > 0 {
            fail.push(0);
            let mut l: usize = 0;
            let mut r: usize = 1;
            proof {
                assert(overlaps(p, p.take(1), 0));
            }
            while r < pattern.len()
                invariant
                    p == pattern@,
                    1 <= r <= p.len(),
                    fail@.len() == r + 1,
                    table_upto(p, fail@, r as int),
                    l == fail@[r as int],
                decreases p.len() - r,
            {
                let c: char = pattern[r];
                let ghost old_fail = fail@;
                l = extend(&pattern, &fail, l, c, Ghost(p.take(r as int)), Ghost(r as int));
                r = r + 1;
                fail.push(l);
                proof {
                    assert(p.take(r as int) =~= p.take(r - 1).push(c));
                    assert forall|x: int| 1 <= x <= r implies longest_below(
                        p,
                        p.take(x),
                        #[trigger] fail@[x] as int,
                        x,
                    ) by {
                        if x < r {
                            assert(fail@[x] == old_fail[x]);
                        }
                    }
                }
            }
        }
        Kmp {
            template,
            pattern,
            fail,
            progress: Progress { matched: 0, fed: Ghost(Seq::empty()) },
        }
    }

    /// Forgets what was fed.
    pub fn clear(&mut self)
        ensures
            final(self).pattern() == old(self).pattern(),
            final(self).fed() == Seq::<char>::empty(),
    {
        proof {
            use_type_invariant(&*self);
        }
        self.progress = Progress { matched: 0, fed: Ghost(Seq::empty()) };
    }

    /// Feeds `c` and tells whether what was fed now ends with the pattern. For
    /// the empty pattern that is so after every step.
    pub fn step(&mut self, c: char) -> (hit: bool)
        ensures
            final(self).pattern() == old(self).pattern(),
            final(self).fed() == old(self).fed().push(c),
            hit == ends_with(final(self).fed(), final(self).pattern()),
    {
        proof {
            use_type_invariant(&*self);
        }
        let ghost p = self.pattern@;
        let ghost t = self.progress.fed@;
        let n: usize = self.pattern.len();
        if n == 0 {
            proof {
                lemma_overlaps_all(p, t.push(c));
            }
            self.progress = Progress { matched: 0, fed: Ghost(t.push(c)) };
            return true;
        }
        let mut x: usize = self.progress.matched;
        if x == n {
            x = self.fail[x];
            proof {
                assert(p.take(n as int) =~= p);
                lemma_shrink(p, t, n as int, x as int);
                assert forall|k: int| #[trigger] overlaps(p, t, k) && k < n implies k <= x by {
                    lemma_shrink(p, t, n as int, k);
                }
            }
        }
        let m: usize = extend(&self.pattern, &self.fail, x, c, Ghost(t), Ghost(n as int));
        proof {
            lemma_overlaps_all(p, t.push(c));
        }
        self.progress = Progress { matched: m, fed: Ghost(t.push(c)) };
        m == n
    }

    /// Whether what was fed ends with the pattern.
    pub fn is_matched(&self) -> (hit: bool)
        ensures
            hit == ends_with(self.fed(), self.pattern()),
    {
        proof {
            use_type_invariant(self);
            lemma_overlaps_all(self.pattern@, self.progress.fed@);
        }
        self.pattern.len() == self.progress.matched
    }

    /// The pattern as it was given.
    pub fn as_ref(&self) -> (t: &'a str)
        ensures
            t@ == self.pattern(),
    {
        self.template
    }
}

} // verus!
