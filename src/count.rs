use vstd::prelude::*;

verus! {

/// Number of elements of `s` that satisfy `p`.
pub open spec fn count<T>(s: Seq<T>, p: spec_fn(T) -> bool) -> nat
    decreases s.len(),
{
    if s.len() == 0 {
        0
    } else {
        count(s.drop_last(), p) + if p(s.last()) { 1nat } else { 0nat }
    }
}

/// Number of elements, over all rows of `b`, that satisfy `p`.
pub open spec fn count2<T>(b: Seq<Seq<T>>, p: spec_fn(T) -> bool) -> nat
    decreases b.len(),
{
    if b.len() == 0 {
        0
    } else {
        count2(b.drop_last(), p) + count(b.last(), p)
    }
}

pub open spec fn ind(c: bool) -> int {
    if c { 1 } else { 0 }
}

/// Replacing one element changes the count by what the old and new element contribute.
pub proof fn lemma_count_update<T>(s: Seq<T>, i: int, v: T, p: spec_fn(T) -> bool)
    requires
        0 <= i < s.len(),
    ensures
        count(s.update(i, v), p) + ind(p(s[i])) == count(s, p) + ind(p(v)),
    decreases s.len(),
{
    let t = s.update(i, v);
    if i == s.len() - 1 {
        assert(t.drop_last() =~= s.drop_last());
    } else {
        lemma_count_update(s.drop_last(), i, v, p);
        assert(t.drop_last() =~= s.drop_last().update(i, v));
    }
}

/// Replacing one cell of a grid changes its count by what the old and new cell contribute.
pub proof fn lemma_count2_update<T>(b: Seq<Seq<T>>, y: int, x: int, v: T, p: spec_fn(T) -> bool)
    requires
        0 <= y < b.len(),
        0 <= x < b[y].len(),
    ensures
        count2(b.update(y, b[y].update(x, v)), p) + ind(p(b[y][x])) == count2(b, p) + ind(p(v)),
    decreases b.len(),
{
    lemma_count_update(b[y], x, v, p);
    let c = b.update(y, b[y].update(x, v));
    if y == b.len() - 1 {
        assert(c.drop_last() =~= b.drop_last());
    } else {
        lemma_count2_update(b.drop_last(), y, x, v, p);
        assert(c.drop_last() =~= b.drop_last().update(y, b[y].update(x, v)));
    }
}

/// Two sequences of one length whose elements agree on the predicates have equal counts.
pub proof fn lemma_count_congr<T, U>(s: Seq<T>, p: spec_fn(T) -> bool, t: Seq<U>, q: spec_fn(U) -> bool)
    requires
        s.len() == t.len(),
        forall|i: int| 0 <= i < s.len() ==> p(s[i]) == q(t[i]),
    ensures
        count(s, p) == count(t, q),
    decreases s.len(),
{
    if s.len() > 0 {
        lemma_count_congr(s.drop_last(), p, t.drop_last(), q);
    }
}

/// Two grids of one shape whose cells agree on the predicates have equal counts.
pub proof fn lemma_count2_congr<T, U>(
    b: Seq<Seq<T>>,
    p: spec_fn(T) -> bool,
    c: Seq<Seq<U>>,
    q: spec_fn(U) -> bool,
)
    requires
        b.len() == c.len(),
        forall|y: int| 0 <= y < b.len() ==> b[y].len() == c[y].len(),
        forall|y: int, x: int|
            0 <= y < b.len() && 0 <= x < b[y].len() ==> p(b[y][x]) == q(c[y][x]),
    ensures
        count2(b, p) == count2(c, q),
    decreases b.len(),
{
    if b.len() > 0 {
        let y = b.len() - 1;
        assert forall|x: int| 0 <= x < b[y].len() implies p(b[y][x]) == q(c[y][x]) by {}
        lemma_count_congr(b.last(), p, c.last(), q);
        lemma_count2_congr(b.drop_last(), p, c.drop_last(), q);
    }
}

/// A count is at most the length.
pub proof fn lemma_count_bound<T>(s: Seq<T>, p: spec_fn(T) -> bool)
    ensures
        count(s, p) <= s.len(),
    decreases s.len(),
{
    if s.len() > 0 {
        lemma_count_bound(s.drop_last(), p);
    }
}

/// The counts of a predicate and of its negation add up to the length.
pub proof fn lemma_count_split<T>(s: Seq<T>, p: spec_fn(T) -> bool, q: spec_fn(T) -> bool)
    requires
        forall|i: int| 0 <= i < s.len() ==> p(s[i]) != q(s[i]),
    ensures
        count(s, p) + count(s, q) == s.len(),
    decreases s.len(),
{
    if s.len() > 0 {
        lemma_count_split(s.drop_last(), p, q);
    }
}

/// On a grid with `w` cells per row, a count is at most `b.len() * w`; the counts of a
/// predicate and of its negation add up to that number.
pub proof fn lemma_count2_split<T>(b: Seq<Seq<T>>, w: int, p: spec_fn(T) -> bool, q: spec_fn(T) -> bool)
    requires
        forall|y: int| 0 <= y < b.len() ==> #[trigger] b[y].len() == w,
        forall|y: int, x: int| 0 <= y < b.len() && 0 <= x < w ==> p(b[y][x]) != q(b[y][x]),
    ensures
        count2(b, p) + count2(b, q) == b.len() * w,
    decreases b.len(),
{
    if b.len() > 0 {
        let y = b.len() - 1;
        assert forall|x: int| 0 <= x < b[y].len() implies p(b[y][x]) != q(b[y][x]) by {}
        lemma_count_split(b.last(), p, q);
        lemma_count2_split(b.drop_last(), w, p, q);
        assert((b.len() - 1) * w + w == b.len() * w) by (nonlinear_arith);
    }
}

/// On a grid with `w` cells per row, a count is at most `b.len() * w`.
pub proof fn lemma_count2_bound<T>(b: Seq<Seq<T>>, w: int, p: spec_fn(T) -> bool)
    requires
        forall|y: int| 0 <= y < b.len() ==> #[trigger] b[y].len() == w,
    ensures
        count2(b, p) <= b.len() * w,
    decreases b.len(),
{
    if b.len() > 0 {
        lemma_count_bound(b.last(), p);
        lemma_count2_bound(b.drop_last(), w, p);
        assert((b.len() - 1) * w + w == b.len() * w) by (nonlinear_arith);
    }
}

/// A grid on which no cell satisfies `p` counts zero.
pub proof fn lemma_count2_none<T>(b: Seq<Seq<T>>, p: spec_fn(T) -> bool)
    requires
        forall|y: int, x: int| 0 <= y < b.len() && 0 <= x < b[y].len() ==> !p(b[y][x]),
    ensures
        count2(b, p) == 0,
    decreases b.len(),
{
    if b.len() > 0 {
        lemma_count_none(b.last(), p);
        lemma_count2_none(b.drop_last(), p);
    }
}

pub proof fn lemma_count_none<T>(s: Seq<T>, p: spec_fn(T) -> bool)
    requires
        forall|i: int| 0 <= i < s.len() ==> !p(s[i]),
    ensures
        count(s, p) == 0,
    decreases s.len(),
{
    if s.len() > 0 {
        lemma_count_none(s.drop_last(), p);
    }
}

/// Where `p` implies `q` on every element, `p` counts at most as many as `q`.
pub proof fn lemma_count_mono<T>(s: Seq<T>, p: spec_fn(T) -> bool, q: spec_fn(T) -> bool)
    requires
        forall|i: int| 0 <= i < s.len() && p(s[i]) ==> q(s[i]),
    ensures
        count(s, p) <= count(s, q),
    decreases s.len(),
{
    if s.len() > 0 {
        lemma_count_mono(s.drop_last(), p, q);
    }
}

/// Where `p` implies `q` on every cell, `p` counts at most as many as `q`.
pub proof fn lemma_count2_mono<T>(b: Seq<Seq<T>>, p: spec_fn(T) -> bool, q: spec_fn(T) -> bool)
    requires
        forall|y: int, x: int| 0 <= y < b.len() && 0 <= x < b[y].len() && p(b[y][x]) ==> q(b[y][x]),
    ensures
        count2(b, p) <= count2(b, q),
    decreases b.len(),
{
    if b.len() > 0 {
        let y = b.len() - 1;
        assert forall|x: int| 0 <= x < b[y].len() && p(b[y][x]) implies q(b[y][x]) by {}
        lemma_count_mono(b.last(), p, q);
        lemma_count2_mono(b.drop_last(), p, q);
    }
}

} // verus!
