//! Every distinct realizable frequency within a window around a target,
//! the window doubling until enough of them are found.
use vstd::prelude::*;
use vstd::arithmetic::power2::{lemma2_to64, lemma_pow2_strictly_increases, lemma_pow2_unfold, pow2};
use crate::params::{F_REF, N_MAX, N_MIN, R_MAX, in_domain, valid_n, valid_r};
use crate::ratio::{lemma_ratio_eq_trans, lemma_ratio_lt_le, ratio_eq, ratio_lt};

verus! {

/// The realizable frequency of `(r, n)` is at least `freq - d`.
pub open spec fn above_low(freq: int, d: int, r: int, n: int) -> bool {
    r * (freq - d) <= F_REF * n
}

/// The realizable frequency of `(r, n)` is at most `freq + d`.
pub open spec fn below_high(freq: int, d: int, r: int, n: int) -> bool {
    F_REF * n <= r * (freq + d)
}

/// `(r, n)` is in range and its realizable frequency lies in `[freq - d, freq + d]`.
pub open spec fn in_window(freq: int, d: int, r: int, n: int) -> bool {
    &&& valid_r(r)
    &&& valid_n(n)
    &&& above_low(freq, d, r, n)
    &&& below_high(freq, d, r, n)
}

/// The two pairs give the same realizable frequency.
pub open spec fn same_freq(a: (u32, u32), b: (u32, u32)) -> bool {
    ratio_eq(a.1 as int, a.0 as int, b.1 as int, b.0 as int)
}

/// The realizable frequency of `a` is below that of `b`.
pub open spec fn freq_lt(a: (u32, u32), b: (u32, u32)) -> bool {
    ratio_lt(a.1 as int, a.0 as int, b.1 as int, b.0 as int)
}

/// Both divider and multiplier are in range.
pub open spec fn valid_pair(p: (u32, u32)) -> bool {
    valid_r(p.0 as int) && valid_n(p.1 as int)
}

/// `p` lies in the window and no smaller divider in the window gives its
/// frequency: it is the pair a sweep by ascending divider meets first.
pub open spec fn first_in_window(freq: int, d: int, p: (u32, u32)) -> bool {
    &&& in_window(freq, d, p.0 as int, p.1 as int)
    &&& forall|q: (u32, u32)|
        q.0 < p.0 && #[trigger] in_window(freq, d, q.0 as int, q.1 as int) ==> !same_freq(q, p)
}

/// The pairs of the window, one for each distinct realizable frequency.
pub open spec fn window_pairs(freq: int, d: int) -> Set<(u32, u32)> {
    Set::new(|p: (u32, u32)| first_in_window(freq, d, p))
}

/// Realizable frequencies strictly ascend along `s`.
pub open spec fn strictly_ascending(s: Seq<(u32, u32)>) -> bool {
    forall|i: int, j: int| 0 <= i < j < s.len() ==> freq_lt(#[trigger] s[i], #[trigger] s[j])
}

/// `s` lists the window's pairs in ascending order of frequency.
pub open spec fn lists_window(freq: int, d: int, s: Seq<(u32, u32)>) -> bool {
    strictly_ascending(s) && s.to_set() == window_pairs(freq, d)
}

proof fn lemma_ceil_div(a: int, f: int, n: int)
    requires
        a >= 0,
        f > 0,
        n >= 0,
    ensures
        ((a + f - 1) / f <= n) <==> (a <= f * n),
{
    let q = (a + f - 1) / f;
    assert(q * f <= a + f - 1 < q * f + f) by (nonlinear_arith)
        requires
            f > 0,
            q == (a + f - 1) / f,
    ;
    if q <= n {
        assert(q * f <= n * f) by (nonlinear_arith)
            requires
                q <= n,
                f > 0,
        ;
        assert(f * n == n * f) by (nonlinear_arith);
    } else {
        assert(n * f <= q * f - f) by (nonlinear_arith)
            requires
                n <= q - 1,
                f > 0,
        ;
        assert(f * n == n * f) by (nonlinear_arith);
    }
}

proof fn lemma_floor_div(b: int, f: int, n: int)
    requires
        b >= 0,
        f > 0,
    ensures
        (n <= b / f) <==> (f * n <= b),
{
    let q = b / f;
    assert(q * f <= b < q * f + f) by (nonlinear_arith)
        requires
            f > 0,
            q == b / f,
    ;
    if n <= q {
        assert(n * f <= q * f) by (nonlinear_arith)
            requires
                n <= q,
                f > 0,
        ;
        assert(f * n == n * f) by (nonlinear_arith);
    } else {
        assert(n * f >= q * f + f) by (nonlinear_arith)
            requires
                n >= q + 1,
                f > 0,
        ;
        assert(f * n == n * f) by (nonlinear_arith);
    }
}

/// The multipliers `[lo, hi]` whose frequency with divider `r` lies in the
/// window, before holding them to the multiplier range.
fn window_bounds(freq: u64, d: u64, r: u32) -> (res: (u64, u64))
    requires
        in_domain(freq as int),
        1 <= d <= 0x4000_0000,
        valid_r(r as int),
    ensures
        forall|n: int| 0 <= n ==> (res.0 <= n <==> #[trigger] above_low(freq as int, d as int, r as int, n)),
        forall|n: int| 0 <= n ==> (n <= res.1 <==> #[trigger] below_high(freq as int, d as int, r as int, n)),
        res.0 <= 0x1_0000_0000,
        res.1 <= 0x1_0000_0000,
{
    let f: u64 = F_REF as u64;
    let lo: u64 = if d >= freq {
        assert forall|n: int| 0 <= n implies #[trigger] above_low(freq as int, d as int, r as int, n) by {
            assert(r * (freq - d) <= 0) by (nonlinear_arith)
                requires
                    r > 0,
                    freq - d <= 0,
            ;
            assert(F_REF * n >= 0) by (nonlinear_arith)
                requires
                    n >= 0,
            ;
        }
        0
    } else {
        assert(r * (freq - d) <= 16383 * 2_000_000_000) by (nonlinear_arith)
            requires
                r <= 16383,
                0 <= freq - d <= 2_000_000_000,
        ;
        let a: u64 = r as u64 * (freq - d);
        assert forall|n: int| 0 <= n implies (a + f - 1) as int / (f as int) <= n <==> #[trigger] above_low(
            freq as int,
            d as int,
            r as int,
            n,
        ) by {
            lemma_ceil_div(a as int, f as int, n);
        }
        (a + f - 1) / f
    };
    assert(r * (freq + d) <= 16383 * 4_000_000_000) by (nonlinear_arith)
        requires
            r <= 16383,
            freq + d <= 4_000_000_000,
    ;
    let b: u64 = r as u64 * (freq + d);
    assert forall|n: int| 0 <= n implies n <= (b as int) / (f as int) <==> #[trigger] below_high(
        freq as int,
        d as int,
        r as int,
        n,
    ) by {
        lemma_floor_div(b as int, f as int, n);
    }
    (lo, b / f)
}

/// Whether the frequency of `a` is below that of `b`.
fn freq_below(a: (u32, u32), b: (u32, u32)) -> (res: bool)
    requires
        valid_pair(a),
        valid_pair(b),
    ensures
        res == freq_lt(a, b),
{
    assert(a.1 * b.0 <= 524287 * 16383 && b.1 * a.0 <= 524287 * 16383) by (nonlinear_arith)
        requires
            a.1 <= 524287,
            b.1 <= 524287,
            a.0 <= 16383,
            b.0 <= 16383,
    ;
    (a.1 as u64) * (b.0 as u64) < (b.1 as u64) * (a.0 as u64)
}

/// Whether `a` and `b` give the same frequency.
fn freq_equal(a: (u32, u32), b: (u32, u32)) -> (res: bool)
    requires
        valid_pair(a),
        valid_pair(b),
    ensures
        res == same_freq(a, b),
{
    assert(a.1 * b.0 <= 524287 * 16383 && b.1 * a.0 <= 524287 * 16383) by (nonlinear_arith)
        requires
            a.1 <= 524287,
            b.1 <= 524287,
            a.0 <= 16383,
            b.0 <= 16383,
    ;
    (a.1 as u64) * (b.0 as u64) == (b.1 as u64) * (a.0 as u64)
}

/// Adds `p` to `v` at its place in ascending order of frequency, unless a
/// pair of the same frequency is there already; returns whether it was added.
fn insert_pair(v: &mut Vec<(u32, u32)>, p: (u32, u32)) -> (added: bool)
    requires
        valid_pair(p),
        strictly_ascending(old(v)@),
        forall|i: int| 0 <= i < old(v)@.len() ==> valid_pair(#[trigger] old(v)@[i]),
    ensures
        strictly_ascending(final(v)@),
        forall|i: int| 0 <= i < final(v)@.len() ==> valid_pair(#[trigger] final(v)@[i]),
        added <==> forall|q: (u32, u32)| old(v)@.contains(q) ==> !same_freq(q, p),
        forall|q: (u32, u32)|
            #[trigger] final(v)@.contains(q) <==> (old(v)@.contains(q) || (added && q == p)),
{
    let mut i: usize = 0;
    while i < v.len() && freq_below(v[i], p)
        invariant
            0 <= i <= v@.len(),
            valid_pair(p),
            strictly_ascending(v@),
            forall|j: int| 0 <= j < v@.len() ==> valid_pair(#[trigger] v@[j]),
            forall|j: int| 0 <= j < i ==> freq_lt(#[trigger] v@[j], p),
        decreases v@.len() - i,
    {
        i = i + 1;
    }
    let ghost s = v@;
    if i < v.len() && freq_equal(v[i], p) {
        assert(s.contains(s[i as int]));
        return false;
    }
    // every pair from `i` on lies above `p`
    assert forall|j: int| i <= j < s.len() implies freq_lt(p, #[trigger] s[j]) by {
        let a = s[i as int];
        assert(ratio_lt(p.1 as int, p.0 as int, a.1 as int, a.0 as int));
        if j > i {
            lemma_ratio_lt_le(
                p.1 as int,
                p.0 as int,
                a.1 as int,
                a.0 as int,
                s[j].1 as int,
                s[j].0 as int,
            );
        }
    }
    v.insert(i, p);
    let ghost t = v@;
    assert forall|a: int, b: int| 0 <= a < b < t.len() implies freq_lt(#[trigger] t[a], #[trigger] t[b]) by {
        if b < i {
            assert(t[a] == s[a] && t[b] == s[b]);
        } else if b == i {
            assert(t[a] == s[a]);
        } else if a == i {
            assert(t[b] == s[b - 1]);
        } else if a < i {
            assert(t[a] == s[a] && t[b] == s[b - 1]);
            lemma_ratio_lt_le(
                s[a].1 as int,
                s[a].0 as int,
                p.1 as int,
                p.0 as int,
                s[b - 1].1 as int,
                s[b - 1].0 as int,
            );
        } else {
            assert(t[a] == s[a - 1] && t[b] == s[b - 1]);
        }
    }
    assert forall|q: (u32, u32)| s.contains(q) implies !same_freq(q, p) by {
        let j = choose|j: int| 0 <= j < s.len() && s[j] == q;
        if j < i {
            assert(freq_lt(s[j], p));
        } else {
            assert(freq_lt(p, s[j]));
        }
    }
    assert forall|q: (u32, u32)| #[trigger] t.contains(q) <==> (s.contains(q) || q == p) by {
        if t.contains(q) {
            let j = choose|j: int| 0 <= j < t.len() && t[j] == q;
            if j < i {
                assert(s[j] == q);
            } else if j > i {
                assert(s[j - 1] == q);
            }
        }
        if s.contains(q) {
            let j = choose|j: int| 0 <= j < s.len() && s[j] == q;
            if j < i {
                assert(t[j] == q);
            } else {
                assert(t[j + 1] == q);
            }
        }
        if q == p {
            assert(t[i as int] == q);
        }
    }
    true
}

/// `p` comes before `(r, n)` in a sweep by ascending divider, then
/// ascending multiplier.
spec fn swept(p: (u32, u32), r: int, n: int) -> bool {
    p.0 < r || (p.0 == r && p.1 < n)
}

/// What a sweep of the window has gathered once it reaches `(r, n)`: one
/// pair for each distinct frequency met so far, the first one met, in
/// ascending order of frequency.
#[verifier::opaque]
spec fn swept_window(freq: int, d: int, v: Seq<(u32, u32)>, r: int, n: int) -> bool {
    &&& strictly_ascending(v)
    &&& forall|i: int| 0 <= i < v.len() ==> valid_pair(#[trigger] v[i])
    &&& forall|q: (u32, u32)|
        #[trigger] v.contains(q) ==> first_in_window(freq, d, q) && swept(q, r, n)
    &&& forall|q: (u32, u32)|
        #[trigger] in_window(freq, d, q.0 as int, q.1 as int) && swept(q, r, n) ==> exists|
            p: (u32, u32),
        | #[trigger] v.contains(p) && same_freq(p, q)
}

proof fn lemma_swept_sorted(freq: int, d: int, v: Seq<(u32, u32)>, r: int, n: int)
    requires
        swept_window(freq, d, v, r, n),
    ensures
        strictly_ascending(v),
        forall|i: int| 0 <= i < v.len() ==> valid_pair(#[trigger] v[i]),
{
    reveal(swept_window);
}

/// Meeting `p` in the sweep: `t` is `s` after `insert_pair` on `p`.
proof fn lemma_sweep_step(
    freq: int,
    d: int,
    s: Seq<(u32, u32)>,
    t: Seq<(u32, u32)>,
    p: (u32, u32),
    added: bool,
)
    requires
        swept_window(freq, d, s, p.0 as int, p.1 as int),
        in_window(freq, d, p.0 as int, p.1 as int),
        strictly_ascending(t),
        forall|i: int| 0 <= i < t.len() ==> valid_pair(#[trigger] t[i]),
        added <==> forall|q: (u32, u32)| s.contains(q) ==> !same_freq(q, p),
        forall|q: (u32, u32)| #[trigger] t.contains(q) <==> (s.contains(q) || (added && q == p)),
    ensures
        swept_window(freq, d, t, p.0 as int, p.1 + 1),
{
    reveal(swept_window);
    let r = p.0 as int;
    let n = p.1 as int;
    assert forall|q: (u32, u32)| #[trigger] t.contains(q) implies first_in_window(freq, d, q)
        && swept(q, r, n + 1) by {
        if !s.contains(q) {
            assert(added && q == p);
            assert forall|q2: (u32, u32)|
                q2.0 < p.0 && #[trigger] in_window(
                    freq,
                    d,
                    q2.0 as int,
                    q2.1 as int,
                ) implies !same_freq(q2, p) by {
                assert(swept(q2, r, n));
                let w = choose|w: (u32, u32)| #[trigger] s.contains(w) && same_freq(w, q2);
                if same_freq(q2, p) {
                    lemma_ratio_eq_trans(
                        w.1 as int,
                        w.0 as int,
                        q2.1 as int,
                        q2.0 as int,
                        p.1 as int,
                        p.0 as int,
                    );
                }
            }
        }
    }
    assert forall|q: (u32, u32)| #[trigger]
        in_window(freq, d, q.0 as int, q.1 as int) && swept(
            q,
            r,
            n + 1,
        ) implies exists|w: (u32, u32)| #[trigger] t.contains(w) && same_freq(w, q) by {
        if swept(q, r, n) {
            let w = choose|w: (u32, u32)| #[trigger] s.contains(w) && same_freq(w, q);
            assert(t.contains(w));
        } else if added {
            assert(q == p);
            assert(t.contains(p));
        } else {
            assert(q == p);
            let w = choose|w: (u32, u32)| s.contains(w) && same_freq(w, p);
            assert(t.contains(w));
        }
    }
}

/// Sweeps the window once: the pairs of `[freq - d, freq + d]`, one for each
/// distinct frequency, in ascending order of frequency.
fn collect_window(freq: u64, d: u64) -> (v: Vec<(u32, u32)>)
    requires
        in_domain(freq as int),
        1 <= d <= 0x4000_0000,
    ensures
        lists_window(freq as int, d as int, v@),
{
    let mut v: Vec<(u32, u32)> = Vec::new();
    let mut r: u32 = 1;
    assert(swept_window(freq as int, d as int, v@, 1, 0)) by {
        reveal(swept_window);
    }
    while r <= R_MAX
        invariant
            in_domain(freq as int),
            1 <= d <= 0x4000_0000,
            1 <= r <= R_MAX + 1,
            swept_window(freq as int, d as int, v@, r as int, 0),
        decreases R_MAX + 1 - r,
    {
        let bounds = window_bounds(freq, d, r);
        let n0: u64 = if bounds.0 < N_MIN as u64 {
            N_MIN as u64
        } else {
            bounds.0
        };
        let n1: u64 = if bounds.1 > N_MAX as u64 {
            N_MAX as u64
        } else {
            bounds.1
        };
        assert(swept_window(freq as int, d as int, v@, r as int, n0 as int)) by {
            reveal(swept_window);
            let s = v@;
            assert forall|q: (u32, u32)| #[trigger]
                in_window(freq as int, d as int, q.0 as int, q.1 as int) && swept(
                    q,
                    r as int,
                    n0 as int,
                ) implies exists|p: (u32, u32)| #[trigger] s.contains(p) && same_freq(p, q) by {
                assert(above_low(freq as int, d as int, q.0 as int, q.1 as int));
                assert(swept(q, r as int, 0));
            }
        }
        let mut n: u64 = n0;
        while n <= n1
            invariant
                in_domain(freq as int),
                1 <= d <= 0x4000_0000,
                1 <= r <= R_MAX,
                n0 <= n <= 0x1_0000_0001,
                N_MIN <= n0,
                n1 <= N_MAX,
                forall|m: int| 0 <= m ==> (bounds.0 <= m <==> #[trigger] above_low(freq as int, d as int, r as int, m)),
                forall|m: int| 0 <= m ==> (m <= bounds.1 <==> #[trigger] below_high(freq as int, d as int, r as int, m)),
                n0 >= bounds.0,
                n1 <= bounds.1,
                swept_window(freq as int, d as int, v@, r as int, n as int),
            decreases n1 + 1 - n,
        {
            let p: (u32, u32) = (r, n as u32);
            assert(above_low(freq as int, d as int, r as int, n as int));
            assert(below_high(freq as int, d as int, r as int, n as int));
            let ghost s = v@;
            proof {
                lemma_swept_sorted(freq as int, d as int, s, r as int, n as int);
            }
            let added = insert_pair(&mut v, p);
            proof {
                lemma_sweep_step(freq as int, d as int, s, v@, p, added);
            }
            n = n + 1;
        }
        assert(swept_window(freq as int, d as int, v@, r + 1, 0)) by {
            reveal(swept_window);
            let s = v@;
            assert forall|q: (u32, u32)| #[trigger]
                in_window(freq as int, d as int, q.0 as int, q.1 as int) && swept(
                    q,
                    r + 1,
                    0,
                ) implies exists|p: (u32, u32)| #[trigger] s.contains(p) && same_freq(p, q) by {
                assert(below_high(freq as int, d as int, q.0 as int, q.1 as int));
                assert(swept(q, r as int, n as int));
            }
        }
        r = r + 1;
    }
    proof {
        reveal(swept_window);
        let s = v@;
        assert forall|p: (u32, u32)| s.to_set().contains(p) <==> window_pairs(
            freq as int,
            d as int,
        ).contains(p) by {
            if first_in_window(freq as int, d as int, p) {
                assert(in_window(freq as int, d as int, p.0 as int, p.1 as int));
                assert(swept(p, r as int, 0));
                let w = choose|w: (u32, u32)| #[trigger] s.contains(w) && same_freq(w, p);
                assert(first_in_window(freq as int, d as int, w));
                assert(in_window(freq as int, d as int, w.0 as int, w.1 as int));
                if w.0 == p.0 {
                    assert(w.1 == p.1) by (nonlinear_arith)
                        requires
                            w.1 * p.0 == p.1 * w.0,
                            w.0 == p.0,
                            p.0 > 0,
                    ;
                }
            }
        }
        assert(s.to_set() =~= window_pairs(freq as int, d as int));
    }
    v
}

/// The fewest distinct frequencies the enumeration gathers.
pub const MIN_SOLUTIONS: usize = 10;

/// The most times the window is doubled: at that width the window holds
/// every frequency of the target range, and many more than `MIN_SOLUTIONS`.
pub const MAX_DOUBLINGS: u32 = 30;

/// The outcome of `enumerate_window`: the half-width `dfreq` of the window,
/// in hertz, which is `2` to the power `doublings`, and one pair for each
/// distinct realizable frequency in it, in ascending order of frequency.
#[derive(Debug, Clone, PartialEq, Eq)]
pub struct Window {
    pub doublings: u32,
    pub dfreq: u64,
    pub pairs: Vec<(u32, u32)>,
}

/// `(doublings, dfreq, pairs)` is what the enumeration owes for `freq`:
/// the narrowest window of half-width a power of two holding at least
/// `MIN_SOLUTIONS` distinct frequencies, and its pairs.
pub open spec fn is_window_result(
    freq: int,
    doublings: nat,
    dfreq: int,
    pairs: Seq<(u32, u32)>,
) -> bool {
    &&& dfreq == pow2(doublings)
    &&& lists_window(freq, dfreq, pairs)
    &&& pairs.len() >= MIN_SOLUTIONS
    &&& forall|j: nat|
        j < doublings ==> (#[trigger] window_pairs(freq, pow2(j) as int)).len() < MIN_SOLUTIONS
}

/// An ascending list of the window has as many entries as the window has
/// distinct frequencies.
pub proof fn lemma_listed_count(freq: int, d: int, s: Seq<(u32, u32)>)
    requires
        lists_window(freq, d, s),
    ensures
        s.no_duplicates(),
        window_pairs(freq, d).finite(),
        window_pairs(freq, d).len() == s.len(),
{
    assert forall|i: int, j: int| 0 <= i < s.len() && 0 <= j < s.len() && i != j implies s[i]
        != s[j] by {
        if i < j {
            assert(freq_lt(s[i], s[j]));
        } else {
            assert(freq_lt(s[j], s[i]));
        }
    }
    s.unique_seq_to_set();
}

/// The widest window holds at least `MIN_SOLUTIONS` distinct frequencies:
/// the pairs `(8, n)` for `n` from 200 to 209 are first met there.
proof fn lemma_widest_window(freq: int, s: Seq<(u32, u32)>)
    requires
        in_domain(freq),
        lists_window(freq, 0x4000_0000, s),
    ensures
        s.len() >= MIN_SOLUTIONS,
{
    let d: int = 0x4000_0000;
    let few: Seq<(u32, u32)> = seq![
        (8u32, 200u32),
        (8u32, 201u32),
        (8u32, 202u32),
        (8u32, 203u32),
        (8u32, 204u32),
        (8u32, 205u32),
        (8u32, 206u32),
        (8u32, 207u32),
        (8u32, 208u32),
        (8u32, 209u32),
    ];
    assert(few.no_duplicates());
    few.unique_seq_to_set();
    lemma_listed_count(freq, d, s);
    assert forall|p: (u32, u32)| few.to_set().contains(p) implies window_pairs(freq, d).contains(p) by {
        let k = choose|k: int| 0 <= k < few.len() && few[k] == p;
        assert(p.0 == 8 && 200 <= p.1 <= 209);
        assert forall|q: (u32, u32)|
            q.0 < p.0 && #[trigger] in_window(freq, d, q.0 as int, q.1 as int) implies !same_freq(
            q,
            p,
        ) by {
            assert(p.1 * q.0 <= 209 * 7) by (nonlinear_arith)
                requires
                    p.1 <= 209,
                    q.0 <= 7,
            ;
        }
    }
    vstd::set_lib::lemma_len_subset(few.to_set(), window_pairs(freq, d));
}

/// Enumerates the realizable frequencies near `freq` (in hertz): starting
/// with a half-width of 1 Hz, the window `[freq - dfreq, freq + dfreq]` is
/// swept afresh and doubled until it holds at least `MIN_SOLUTIONS`
/// distinct frequencies. This takes at most `MAX_DOUBLINGS` doublings.
pub fn enumerate_window(freq: u64) -> (w: Window)
    requires
        in_domain(freq as int),
    ensures
        is_window_result(freq as int, w.doublings as nat, w.dfreq as int, w.pairs@),
        w.doublings <= MAX_DOUBLINGS,
{
    let mut doublings: u32 = 0;
    let mut dfreq: u64 = 1;
    proof {
        lemma2_to64();
    }
    loop
        invariant
            in_domain(freq as int),
            doublings <= MAX_DOUBLINGS,
            dfreq == pow2(doublings as nat),
            forall|j: nat|
                j < doublings ==> (#[trigger] window_pairs(freq as int, pow2(j) as int)).len()
                    < MIN_SOLUTIONS,
        decreases MAX_DOUBLINGS - doublings,
    {
        proof {
            lemma2_to64();
            if doublings < MAX_DOUBLINGS {
                lemma_pow2_strictly_increases(doublings as nat, MAX_DOUBLINGS as nat);
            }
        }
        let pairs = collect_window(freq, dfreq);
        proof {
            lemma_listed_count(freq as int, dfreq as int, pairs@);
        }
        if pairs.len() >= MIN_SOLUTIONS {
            return Window { doublings, dfreq, pairs };
        }
        proof {
            if doublings == MAX_DOUBLINGS {
                lemma_widest_window(freq as int, pairs@);
            }
            lemma_pow2_unfold((doublings + 1) as nat);
        }
        dfreq = dfreq * 2;
        doublings = doublings + 1;
    }
}

proof fn lemma_listing_prefix(s1: Seq<(u32, u32)>, s2: Seq<(u32, u32)>, i: int)
    requires
        strictly_ascending(s1),
        strictly_ascending(s2),
        forall|k: int| 0 <= k < s1.len() ==> valid_pair(#[trigger] s1[k]),
        s1.to_set() == s2.to_set(),
        s1.len() == s2.len(),
        0 <= i < s1.len(),
    ensures
        forall|k: int| 0 <= k <= i ==> s1[k] == s2[k],
    decreases i,
{
    if i > 0 {
        lemma_listing_prefix(s1, s2, i - 1);
    }
    let a = s1[i];
    let b = s2[i];
    assert(s1.to_set().contains(a));
    assert(s2.to_set().contains(b));
    let p = choose|p: int| 0 <= p < s2.len() && s2[p] == a;
    let q = choose|q: int| 0 <= q < s1.len() && s1[q] == b;
    if p < i {
        assert(s1[p] == a);
        assert(freq_lt(s1[p], s1[i]));
    } else if q < i {
        assert(s2[q] == b);
        assert(freq_lt(s2[q], s2[i]));
    } else if p > i && q > i {
        assert(freq_lt(b, a));
        assert(freq_lt(a, b));
        assert(valid_pair(s1[q]));
        lemma_ratio_lt_le(
            a.1 as int,
            a.0 as int,
            b.1 as int,
            b.0 as int,
            a.1 as int,
            a.0 as int,
        );
    }
}

/// Doubling the window gives one answer for each target: whatever two
/// calls of `enumerate_window` on the same frequency return, they reach the
/// same window and list the same pairs in the same order.
pub proof fn lemma_window_result_unique(
    freq: int,
    j1: nat,
    d1: int,
    s1: Seq<(u32, u32)>,
    j2: nat,
    d2: int,
    s2: Seq<(u32, u32)>,
)
    requires
        is_window_result(freq, j1, d1, s1),
        is_window_result(freq, j2, d2, s2),
    ensures
        j1 == j2,
        d1 == d2,
        s1 == s2,
{
    lemma_listed_count(freq, d1, s1);
    lemma_listed_count(freq, d2, s2);
    if j1 < j2 {
        assert(window_pairs(freq, pow2(j1) as int).len() < MIN_SOLUTIONS);
    } else if j2 < j1 {
        assert(window_pairs(freq, pow2(j2) as int).len() < MIN_SOLUTIONS);
    } else {
        assert forall|k: int| 0 <= k < s1.len() implies valid_pair(#[trigger] s1[k]) by {
            assert(s1.to_set().contains(s1[k]));
            assert(window_pairs(freq, d1).contains(s1[k]));
        }
        if s1.len() > 0 {
            lemma_listing_prefix(s1, s2, s1.len() - 1);
        }
        assert(s1 =~= s2);
    }
}

/// What the enumeration returns: at least `MIN_SOLUTIONS` entries, each
/// a pair in range whose realizable frequency lies in the final window
/// `[freq - dfreq, freq + dfreq]`, and no two of the same frequency.
pub proof fn lemma_window_result_entries(freq: int, j: nat, d: int, s: Seq<(u32, u32)>)
    requires
        is_window_result(freq, j, d, s),
    ensures
        s.len() >= MIN_SOLUTIONS,
        forall|i: int| 0 <= i < s.len() ==> in_window(freq, d, #[trigger] s[i].0 as int, s[i].1 as int),
        forall|i: int, k: int| 0 <= i < s.len() && 0 <= k < s.len() && i != k ==> !same_freq(#[trigger] s[i], #[trigger] s[k]),
{
    assert forall|i: int| 0 <= i < s.len() implies in_window(freq, d, #[trigger] s[i].0 as int, s[i].1 as int) by {
        assert(s.to_set().contains(s[i]));
        assert(window_pairs(freq, d).contains(s[i]));
    }
    assert forall|i: int, k: int| 0 <= i < s.len() && 0 <= k < s.len() && i != k implies !same_freq(#[trigger] s[i], #[trigger] s[k]) by {
        if i < k {
            assert(freq_lt(s[i], s[k]));
        } else {
            assert(freq_lt(s[k], s[i]));
        }
    }
}

} // verus!
