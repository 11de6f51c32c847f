//! Insertion sorts for the descriptor's canonical axis order.
use vstd::prelude::*;

use crate::field::Field;
use crate::twist::Twist;

verus! {

/// `(a.offset, a.hook) < (b.offset, b.hook)` lexicographically.
pub open spec fn key_lt<F: Field>(a: Twist<F>, b: Twist<F>) -> bool {
    a.offset < b.offset || (a.offset == b.offset && a.hook < b.hook)
}

/// Strictly increasing `(offset, hook)` keys.
pub open spec fn keys_increasing<F: Field>(s: Seq<Twist<F>>) -> bool {
    forall|i: int, j: int| #![trigger s[i], s[j]] 0 <= i < j < s.len() ==> key_lt(s[i], s[j])
}

/// Strictly increasing.
pub open spec fn increasing(s: Seq<usize>) -> bool {
    forall|i: int, j: int| #![trigger s[i], s[j]] 0 <= i < j < s.len() ==> s[i] < s[j]
}

/// Sort twists with pairwise distinct keys by `(offset, hook)`.
pub fn sort_twists<F: Field>(input: &[Twist<F>]) -> (r: Vec<Twist<F>>)
    requires
        forall|i: int, j: int|
            #![trigger input@[i], input@[j]]
            0 <= i < j < input@.len() ==> !(input@[i].offset == input@[j].offset && input@[i].hook
                == input@[j].hook),
    ensures
        keys_increasing(r@),
        r@.len() == input@.len(),
        forall|t: Twist<F>| #[trigger] r@.contains(t) == input@.contains(t),
{
    let ghost s = input@;
    let mut out: Vec<Twist<F>> = Vec::new();
    let mut i: usize = 0;
    while i < input.len()
        invariant
            s == input@,
            i <= s.len(),
            forall|a: int, b: int|
                #![trigger s[a], s[b]]
                0 <= a < b < s.len() ==> !(s[a].offset == s[b].offset && s[a].hook == s[b].hook),
            keys_increasing(out@),
            out@.len() == i,
            forall|t: Twist<F>| #[trigger] out@.contains(t) == s.subrange(0, i as int).contains(t),
        decreases s.len() - i,
    {
        let t = input[i];
        let mut j: usize = 0;
        while j < out.len() && !(t.offset < out[j].offset || (t.offset == out[j].offset && t.hook
            < out[j].hook))
            invariant
                j <= out@.len(),
                forall|p: int| 0 <= p < j ==> !key_lt(t, #[trigger] out@[p]),
            decreases out@.len() - j,
        {
            j += 1;
        }
        let ghost before = out@;
        proof {
            // every earlier element has a key different from `t`
            assert forall|p: int| 0 <= p < before.len() implies !((#[trigger] before[p]).offset == t.offset
                && before[p].hook == t.hook) by {
                assert(before.contains(before[p]));
                assert(s.subrange(0, i as int).contains(before[p]));
                let prefix = s.subrange(0, i as int);
                let q = choose|q: int| 0 <= q < prefix.len() && prefix[q] == before[p];
                assert(s[q] == before[p]);
                assert(s[i as int] == t);
            }
        }
        out.insert(j, t);
        proof {
            before.insert_ensures(j as int, t);
            assert(out@ == before.insert(j as int, t));
            assert forall|a: int, b: int| #![trigger out@[a], out@[b]] 0 <= a < b < out@.len() implies key_lt(
                out@[a],
                out@[b],
            ) by {
                if b < j {
                    assert(out@[a] == before[a] && out@[b] == before[b]);
                } else if b == j {
                    assert(out@[a] == before[a]);
                    assert(!key_lt(t, before[a]));
                } else if a < j {
                    assert(out@[a] == before[a] && out@[b] == before[b - 1]);
                    if a < b - 1 {
                    }
                } else if a == j {
                    assert(out@[b] == before[b - 1]);
                    assert(j < before.len());
                    assert(key_lt(t, before[j as int]));
                    if b - 1 > j {
                        assert(key_lt(before[j as int], before[b - 1]));
                    }
                } else {
                    assert(out@[a] == before[a - 1] && out@[b] == before[b - 1]);
                }
            }
            assert forall|x: Twist<F>| #[trigger] out@.contains(x) == s.subrange(0, i as int + 1).contains(
                x,
            ) by {
                assert(s.subrange(0, i as int + 1) == s.subrange(0, i as int).push(t));
                if out@.contains(x) {
                    let p = choose|p: int| 0 <= p < out@.len() && out@[p] == x;
                    if p < j {
                        assert(before[p] == x);
                        assert(before.contains(x));
                    } else if p > j {
                        assert(before[p - 1] == x);
                        assert(before.contains(x));
                    }
                    if x != t {
                        assert(s.subrange(0, i as int).contains(x));
                        let prefix = s.subrange(0, i as int);
                        let q = choose|q: int| 0 <= q < prefix.len() && prefix[q] == x;
                        assert(s.subrange(0, i as int + 1)[q] == x);
                    } else {
                        assert(s.subrange(0, i as int + 1)[i as int] == x);
                    }
                }
                if s.subrange(0, i as int + 1).contains(x) {
                    let next = s.subrange(0, i as int + 1);
                    let q = choose|q: int| 0 <= q < next.len() && next[q] == x;
                    if q < i {
                        assert(s.subrange(0, i as int)[q] == x);
                        assert(before.contains(x));
                        let p = choose|p: int| 0 <= p < before.len() && before[p] == x;
                        if p < j {
                            assert(out@[p] == x);
                        } else {
                            assert(out@[p + 1] == x);
                        }
                    } else {
                        assert(out@[j as int] == x);
                    }
                }
            }
        }
        i += 1;
    }
    proof {
        assert(s.subrange(0, s.len() as int) == s);
    }
    out
}

/// Sort pairwise distinct indices ascending.
pub fn sort_indices(input: &[usize]) -> (r: Vec<usize>)
    requires
        forall|i: int, j: int| #![trigger input@[i], input@[j]] 0 <= i < j < input@.len() ==> input@[i] != input@[j],
    ensures
        increasing(r@),
        r@.len() == input@.len(),
        forall|v: usize| #[trigger] r@.contains(v) == input@.contains(v),
{
    let ghost s = input@;
    let mut out: Vec<usize> = Vec::new();
    let mut i: usize = 0;
    while i < input.len()
        invariant
            s == input@,
            i <= s.len(),
            forall|a: int, b: int| #![trigger s[a], s[b]] 0 <= a < b < s.len() ==> s[a] != s[b],
            increasing(out@),
            out@.len() == i,
            forall|v: usize| #[trigger] out@.contains(v) == s.subrange(0, i as int).contains(v),
        decreases s.len() - i,
    {
        let t = input[i];
        let mut j: usize = 0;
        while j < out.len() && out[j] < t
            invariant
                j <= out@.len(),
                forall|p: int| 0 <= p < j ==> #[trigger] out@[p] < t,
            decreases out@.len() - j,
        {
            j += 1;
        }
        let ghost before = out@;
        proof {
            assert forall|p: int| 0 <= p < before.len() implies #[trigger] before[p] != t by {
                assert(before.contains(before[p]));
                assert(s.subrange(0, i as int).contains(before[p]));
                let prefix = s.subrange(0, i as int);
                let q = choose|q: int| 0 <= q < prefix.len() && prefix[q] == before[p];
                assert(s[q] == before[p]);
                assert(s[i as int] == t);
            }
        }
        out.insert(j, t);
        proof {
            before.insert_ensures(j as int, t);
            assert(out@ == before.insert(j as int, t));
            assert forall|a: int, b: int| #![trigger out@[a], out@[b]] 0 <= a < b < out@.len() implies out@[a]
                < out@[b] by {
                if b < j {
                    assert(out@[a] == before[a] && out@[b] == before[b]);
                } else if b == j {
                    assert(out@[a] == before[a]);
                } else if a < j {
                    assert(out@[a] == before[a] && out@[b] == before[b - 1]);
                } else if a == j {
                    assert(out@[b] == before[b - 1]);
                    assert(j < before.len());
                    assert(before[j as int] >= t);
                    assert(before[j as int] != t);
                    if b - 1 > j {
                        assert(before[j as int] < before[b - 1]);
                    }
                } else {
                    assert(out@[a] == before[a - 1] && out@[b] == before[b - 1]);
                }
            }
            assert forall|x: usize| #[trigger] out@.contains(x) == s.subrange(0, i as int + 1).contains(x) by {
                assert(s.subrange(0, i as int + 1) == s.subrange(0, i as int).push(t));
                if out@.contains(x) {
                    let p = choose|p: int| 0 <= p < out@.len() && out@[p] == x;
                    if p < j {
                        assert(before[p] == x);
                        assert(before.contains(x));
                    } else if p > j {
                        assert(before[p - 1] == x);
                        assert(before.contains(x));
                    }
                    if x != t {
                        assert(s.subrange(0, i as int).contains(x));
                        let prefix = s.subrange(0, i as int);
                        let q = choose|q: int| 0 <= q < prefix.len() && prefix[q] == x;
                        assert(s.subrange(0, i as int + 1)[q] == x);
                    } else {
                        assert(s.subrange(0, i as int + 1)[i as int] == x);
                    }
                }
                if s.subrange(0, i as int + 1).contains(x) {
                    let next = s.subrange(0, i as int + 1);
                    let q = choose|q: int| 0 <= q < next.len() && next[q] == x;
                    if q < i {
                        assert(s.subrange(0, i as int)[q] == x);
                        assert(before.contains(x));
                        let p = choose|p: int| 0 <= p < before.len() && before[p] == x;
                        if p < j {
                            assert(out@[p] == x);
                        } else {
                            assert(out@[p + 1] == x);
                        }
                    } else {
                        assert(out@[j as int] == x);
                    }
                }
            }
        }
        i += 1;
    }
    proof {
        assert(s.subrange(0, s.len() as int) == s);
    }
    out
}

} // verus!
