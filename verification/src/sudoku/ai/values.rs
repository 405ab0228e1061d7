//! Sequences of candidate values as mathematics: removal of a value, and
//! the ascending sequences that stand for sets of digits.

use vstd::prelude::*;

verus! {

/// `s` with every occurrence of `v` taken out.
pub open spec fn without(s: Seq<u8>, v: u8) -> Seq<u8>
    decreases s.len(),
{
    if s.len() == 0 {
        s
    } else if s.last() == v {
        without(s.drop_last(), v)
    } else {
        without(s.drop_last(), v).push(s.last())
    }
}

/// Each value of `s` is smaller than the next.
pub open spec fn ascending(s: Seq<u8>) -> bool {
    forall|a: int, b: int| 0 <= a < b < s.len() ==> s[a] < s[b]
}

/// Each value of `s` is a digit from 1 to 9.
pub open spec fn digits_only(s: Seq<u8>) -> bool {
    forall|a: int| 0 <= a < s.len() ==> 1 <= #[trigger] s[a] <= 9
}

/// The digits from 1 to 9 in ascending order.
pub open spec fn all_digits() -> Seq<u8> {
    seq![1u8, 2u8, 3u8, 4u8, 5u8, 6u8, 7u8, 8u8, 9u8]
}

/// A value is left exactly when it occurred and is not the one taken out.
pub proof fn lemma_without_contains(s: Seq<u8>, v: u8, x: u8)
    ensures
        without(s, v).contains(x) <==> (s.contains(x) && x != v),
    decreases s.len(),
{
    if s.len() > 0 {
        let rest = s.drop_last();
        let last = s.last();
        lemma_without_contains(rest, v, x);
        let w = without(s, v);
        let wr = without(rest, v);
        if w.contains(x) {
            let k = choose|k: int| 0 <= k < w.len() && w[k] == x;
            if last != v && k == wr.len() {
                assert(s[s.len() - 1] == x);
            } else {
                assert(wr[k] == x);
                assert(wr.contains(x));
                let m = choose|m: int| 0 <= m < rest.len() && rest[m] == x;
                assert(s[m] == x);
            }
        }
        if s.contains(x) && x != v {
            let m = choose|m: int| 0 <= m < s.len() && s[m] == x;
            if m == s.len() - 1 {
                assert(w[w.len() - 1] == x);
            } else {
                assert(rest[m] == x);
                assert(rest.contains(x));
                let k = choose|k: int| 0 <= k < wr.len() && wr[k] == x;
                assert(w[k] == x);
            }
        }
    }
}

/// What is left of `s` holds exactly the values of `s` other than `v`, in
/// their old order.
pub proof fn lemma_without(s: Seq<u8>, v: u8)
    ensures
        without(s, v).len() <= s.len(),
        forall|x: u8| #[trigger] without(s, v).contains(x) <==> (s.contains(x) && x != v),
        !s.contains(v) ==> without(s, v) == s,
        s.contains(v) ==> without(s, v).len() < s.len(),
        ascending(s) ==> ascending(without(s, v)),
        digits_only(s) ==> digits_only(without(s, v)),
        s.no_duplicates() ==> without(s, v).no_duplicates(),
    decreases s.len(),
{
    assert forall|x: u8| #[trigger] without(s, v).contains(x) <==> (s.contains(x) && x != v) by {
        lemma_without_contains(s, v, x);
    }
    if s.len() == 0 {
    } else {
        let rest = s.drop_last();
        let last = s.last();
        lemma_without(rest, v);
        let w = without(s, v);
        let wr = without(rest, v);
        assert(s =~= rest.push(last));
        if !s.contains(v) {
            assert(!rest.contains(v)) by {
                if rest.contains(v) {
                    let m = choose|m: int| 0 <= m < rest.len() && rest[m] == v;
                    assert(s[m] == v);
                }
            }
            assert(last != v) by {
                if last == v {
                    assert(s[s.len() - 1] == v);
                }
            }
            assert(w =~= s);
        }
        if s.contains(v) && last != v {
            let m = choose|m: int| 0 <= m < s.len() && s[m] == v;
            assert(rest[m] == v);
        }
        if ascending(s) {
            assert(ascending(rest));
            assert forall|a: int, b: int| 0 <= a < b < w.len() implies w[a] < w[b] by {
                if last != v && b == wr.len() {
                    assert(wr.contains(wr[a]));
                    let m = choose|m: int| 0 <= m < rest.len() && rest[m] == wr[a];
                    assert(s[m] < s[s.len() - 1]);
                }
            }
        }
        if digits_only(s) {
            assert(digits_only(rest));
            assert forall|a: int| 0 <= a < w.len() implies 1 <= #[trigger] w[a] <= 9 by {
                if last != v && a == wr.len() {
                    assert(1 <= s[s.len() - 1] <= 9);
                }
            }
        }
        if s.no_duplicates() {
            assert(rest.no_duplicates());
            assert forall|a: int, b: int| 0 <= a < w.len() && 0 <= b < w.len() && a != b implies w[a]
                != w[b] by {
                if last != v && (a == wr.len() || b == wr.len()) {
                    let c = if a == wr.len() {
                        b
                    } else {
                        a
                    };
                    assert(wr.contains(wr[c]));
                    let m = choose|m: int| 0 <= m < rest.len() && rest[m] == wr[c];
                    assert(s[m] != s[s.len() - 1]);
                }
            }
        }
    }
}

/// An ascending sequence of digits is no longer than nine.
pub proof fn lemma_ascending_digits_len(s: Seq<u8>)
    requires
        ascending(s),
        digits_only(s),
    ensures
        s.len() <= 9,
        s.no_duplicates(),
{
    assert forall|a: int| 0 <= a < s.len() implies #[trigger] s[a] >= a + 1 by {
        lemma_ascending_lower_bound(s, a);
    }
    if s.len() > 9 {
        assert(s[9] >= 10);
    }
}

/// The value at place `a` of an ascending sequence of digits is at least
/// `a + 1`.
pub proof fn lemma_ascending_lower_bound(s: Seq<u8>, a: int)
    requires
        ascending(s),
        digits_only(s),
        0 <= a < s.len(),
    ensures
        s[a] >= a + 1,
    decreases a,
{
    if a > 0 {
        lemma_ascending_lower_bound(s, a - 1);
        assert(s[a - 1] < s[a]);
    } else {
        assert(1 <= s[0]);
    }
}

/// Two ascending sequences that hold the same values are the same sequence.
pub proof fn lemma_ascending_unique(a: Seq<u8>, b: Seq<u8>)
    requires
        ascending(a),
        ascending(b),
        forall|x: u8| a.contains(x) <==> b.contains(x),
    ensures
        a == b,
    decreases a.len(),
{
    if a.len() == 0 {
        if b.len() > 0 {
            assert(b.contains(b[0]));
        }
        assert(a =~= b);
    } else {
        assert(a.contains(a.last()));
        if b.len() == 0 {
            assert(false);
        }
        assert(b.contains(b.last()));
        let ia = choose|i: int| 0 <= i < a.len() && a[i] == b.last();
        let ib = choose|i: int| 0 <= i < b.len() && b[i] == a.last();
        assert(a.last() == b.last()) by {
            if ia < a.len() - 1 {
                assert(a[ia] < a[a.len() - 1]);
            }
            if ib < b.len() - 1 {
                assert(b[ib] < b[b.len() - 1]);
            }
        }
        let ra = a.drop_last();
        let rb = b.drop_last();
        assert forall|x: u8| ra.contains(x) <==> rb.contains(x) by {
            if ra.contains(x) {
                let i = choose|i: int| 0 <= i < ra.len() && ra[i] == x;
                assert(a[i] == x);
                assert(a[i] < a[a.len() - 1]);
                assert(a.contains(x));
                let j = choose|j: int| 0 <= j < b.len() && b[j] == x;
                assert(rb[j] == x);
            }
            if rb.contains(x) {
                let i = choose|i: int| 0 <= i < rb.len() && rb[i] == x;
                assert(b[i] == x);
                assert(b[i] < b[b.len() - 1]);
                assert(b.contains(x));
                let j = choose|j: int| 0 <= j < a.len() && a[j] == x;
                assert(ra[j] == x);
            }
        }
        lemma_ascending_unique(ra, rb);
        assert(a =~= ra.push(a.last()));
        assert(b =~= rb.push(b.last()));
    }
}

/// A sequence of different values between 1 and `m` is no longer than `m`.
pub proof fn lemma_distinct_bound(t: Seq<u8>, m: int)
    requires
        0 <= m,
        t.no_duplicates(),
        forall|a: int| 0 <= a < t.len() ==> 1 <= #[trigger] t[a] <= m,
    ensures
        t.len() <= m,
    decreases m,
{
    if m == 0 {
        if t.len() > 0 {
            assert(1 <= t[0] <= 0);
        }
    } else if exists|p: int| 0 <= p < t.len() && t[p] == m {
        let p = choose|p: int| 0 <= p < t.len() && t[p] == m;
        let rest = t.remove(p);
        assert forall|a: int| 0 <= a < rest.len() implies 1 <= #[trigger] rest[a] <= m - 1 by {
            if a < p {
                assert(rest[a] == t[a]);
                assert(t[a] != t[p]);
            } else {
                assert(rest[a] == t[a + 1]);
                assert(t[a + 1] != t[p]);
            }
        }
        assert forall|a: int, b: int| 0 <= a < rest.len() && 0 <= b < rest.len() && a != b implies rest[a]
            != rest[b] by {
            let a2 = if a < p {
                a
            } else {
                a + 1
            };
            let b2 = if b < p {
                b
            } else {
                b + 1
            };
            assert(rest[a] == t[a2] && rest[b] == t[b2]);
        }
        lemma_distinct_bound(rest, m - 1);
    } else {
        assert forall|a: int| 0 <= a < t.len() implies 1 <= #[trigger] t[a] <= m - 1 by {
            assert(t[a] != m);
        }
        lemma_distinct_bound(t, m - 1);
    }
}

/// Nine different digits are all the digits: each digit is among them.
pub proof fn lemma_distinct_digits_cover(t: Seq<u8>, v: u8)
    requires
        t.len() == 9,
        t.no_duplicates(),
        digits_only(t),
        1 <= v <= 9,
    ensures
        t.contains(v),
{
    if !t.contains(v) {
        // shift the digits above `v` down by one: nine different values up to 8
        let lower = Seq::new(
            9,
            |a: int|
                if t[a] > v {
                    (t[a] - 1) as u8
                } else {
                    t[a]
                },
        );
        assert forall|a: int| 0 <= a < lower.len() implies 1 <= #[trigger] lower[a] <= 8 by {
            assert(1 <= t[a] <= 9);
            if t[a] == v {
                assert(t.contains(v));
            }
        }
        assert forall|a: int, b: int|
            0 <= a < lower.len() && 0 <= b < lower.len() && a != b implies lower[a] != lower[b] by {
            assert(t[a] != t[b]);
            if t[a] == v {
                assert(t.contains(v));
            }
            if t[b] == v {
                assert(t.contains(v));
            }
        }
        lemma_distinct_bound(lower, 8);
    }
}

} // verus!
