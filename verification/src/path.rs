//! Path expressions: dot-separated segments.  A segment of digits
//! addresses a child by position; any other segment addresses a group
//! child by name.

use vstd::prelude::*;

use crate::text::is_digit;

verus! {

/// Index of the next `.` at or after `i`, or the end of the text.
pub open spec fn seg_end(s: Seq<char>, i: int) -> int
    decreases s.len() - i,
    when 0 <= i <= s.len()
{
    if i < s.len() && s[i] != '.' {
        seg_end(s, i + 1)
    } else {
        i
    }
}

/// The segment run stays within the text and contains no dot.
pub proof fn lemma_seg_end_bounds(s: Seq<char>, i: int)
    requires
        0 <= i <= s.len(),
    ensures
        i <= seg_end(s, i) <= s.len(),
        forall|j: int| i <= j < seg_end(s, i) ==> #[trigger] s[j] != '.',
        seg_end(s, i) < s.len() ==> s[seg_end(s, i)] == '.',
    decreases s.len() - i,
{
    if i < s.len() && s[i] != '.' {
        lemma_seg_end_bounds(s, i + 1);
    }
}

/// The segments of `s` from position `i` on, split at dots.
pub open spec fn split_from(s: Seq<char>, i: int) -> Seq<Seq<char>>
    decreases s.len() - i,
    when 0 <= i <= s.len()
{
    let d = seg_end(s, i);
    if i <= d && d < s.len() {
        seq![s.subrange(i, d)] + split_from(s, d + 1)
    } else {
        seq![s.subrange(i, s.len() as int)]
    }
}

/// A segment that addresses a child by position: digits only.
pub open spec fn is_index_seg(seg: Seq<char>) -> bool {
    seg.len() > 0 && forall|i: int| 0 <= i < seg.len() ==> is_digit(#[trigger] seg[i])
}

/// Where two texts agree from given positions to their ends, the next
/// dot sits at the same offset.
pub proof fn lemma_seg_end_shift(s: Seq<char>, b: Seq<char>, j: int, jb: int)
    requires
        0 <= j <= s.len(),
        0 <= jb <= b.len(),
        s.len() - j == b.len() - jb,
        forall|t: int| 0 <= t < s.len() - j ==> #[trigger] s[j + t] == b[jb + t],
    ensures
        seg_end(s, j) - j == seg_end(b, jb) - jb,
    decreases s.len() - j,
{
    if j < s.len() {
        assert(s[j] == b[jb]) by {
            assert(s[j + 0] == b[jb + 0]);
        }
        if s[j] != '.' {
            assert forall|t: int| 0 <= t < s.len() - (j + 1) implies #[trigger] s[j + 1 + t]
                == b[jb + 1 + t] by {
                assert(s[j + (t + 1)] == b[jb + (t + 1)]);
            }
            lemma_seg_end_shift(s, b, j + 1, jb + 1);
        }
    }
}

/// Where two texts agree from given positions to their ends, they
/// split into the same segments.
pub proof fn lemma_split_shift(s: Seq<char>, b: Seq<char>, j: int, jb: int)
    requires
        0 <= j <= s.len(),
        0 <= jb <= b.len(),
        s.len() - j == b.len() - jb,
        forall|t: int| 0 <= t < s.len() - j ==> #[trigger] s[j + t] == b[jb + t],
    ensures
        split_from(s, j) =~= split_from(b, jb),
    decreases s.len() - j,
{
    lemma_seg_end_bounds(s, j);
    lemma_seg_end_bounds(b, jb);
    lemma_seg_end_shift(s, b, j, jb);
    let d = seg_end(s, j);
    let db = seg_end(b, jb);
    if d < s.len() {
        assert forall|t: int| 0 <= t < s.len() - (d + 1) implies #[trigger] s[d + 1 + t]
            == b[db + 1 + t] by {
            assert(s[j + (d + 1 + t - j)] == b[jb + (d + 1 + t - j)]);
        }
        lemma_split_shift(s, b, d + 1, db + 1);
        assert(s.subrange(j, d) =~= b.subrange(jb, db)) by {
            assert forall|t: int| 0 <= t < d - j implies s.subrange(j, d)[t] == b.subrange(
                jb,
                db,
            )[t] by {
                assert(s[j + t] == b[jb + t]);
            }
        }
        assert(split_from(s, j) =~= seq![s.subrange(j, d)] + split_from(s, d + 1));
        assert(split_from(b, jb) =~= seq![b.subrange(jb, db)] + split_from(b, db + 1));
    } else {
        assert(s.subrange(j, s.len() as int) =~= b.subrange(jb, b.len() as int)) by {
            assert forall|t: int| 0 <= t < s.len() - j implies s.subrange(j, s.len() as int)[t]
                == b.subrange(jb, b.len() as int)[t] by {
                assert(s[j + t] == b[jb + t]);
            }
        }
    }
}

/// In a joined path `a + "." + b`, the dot search from inside `a`
/// stops where it stops in `a`, or at the inserted dot.
pub proof fn lemma_seg_end_agree(a: Seq<char>, b: Seq<char>, i: int)
    requires
        0 <= i <= a.len(),
    ensures
        seg_end(a + seq!['.'] + b, i) == if seg_end(a, i) < a.len() {
            seg_end(a, i)
        } else {
            a.len() as int
        },
    decreases a.len() - i,
{
    let s = a + seq!['.'] + b;
    if i < a.len() {
        assert(s[i] == a[i]);
        if a[i] != '.' {
            lemma_seg_end_agree(a, b, i + 1);
        }
    } else {
        assert(s[i] == '.');
    }
}

/// Joining two paths with a dot concatenates their segments.
pub proof fn lemma_split_join(a: Seq<char>, b: Seq<char>)
    ensures
        split_from(a + seq!['.'] + b, 0) =~= split_from(a, 0) + split_from(b, 0),
{
    lemma_split_join_from(a, b, 0);
}

/// Joining two paths with a dot concatenates their segments, from
/// position `i` of the first path on.
pub proof fn lemma_split_join_from(a: Seq<char>, b: Seq<char>, i: int)
    requires
        0 <= i <= a.len(),
    ensures
        split_from(a + seq!['.'] + b, i) =~= split_from(a, i) + split_from(b, 0),
    decreases a.len() - i,
{
    let s = a + seq!['.'] + b;
    lemma_seg_end_bounds(a, i);
    lemma_seg_end_bounds(s, i);
    lemma_seg_end_agree(a, b, i);
    let da = seg_end(a, i);
    let d = seg_end(s, i);
    if da < a.len() {
        lemma_split_join_from(a, b, da + 1);
        assert(s.subrange(i, d) =~= a.subrange(i, da)) by {
            assert forall|t: int| 0 <= t < da - i implies s.subrange(i, d)[t] == a.subrange(
                i,
                da,
            )[t] by {
                assert(s[i + t] == a[i + t]);
            }
        }
        assert(split_from(s, i) =~= seq![s.subrange(i, d)] + split_from(s, d + 1));
        assert(split_from(a, i) =~= seq![a.subrange(i, da)] + split_from(a, da + 1));
    } else {
        assert(d == a.len() < s.len());
        assert(s.subrange(i, d) =~= a.subrange(i, a.len() as int)) by {
            assert forall|t: int| 0 <= t < d - i implies s.subrange(i, d)[t] == a.subrange(
                i,
                a.len() as int,
            )[t] by {
                assert(s[i + t] == a[i + t]);
            }
        }
        assert forall|t: int| 0 <= t < s.len() - (d + 1) implies #[trigger] s[d + 1 + t] == b[0
            + t] by {
            assert(s[a.len() + 1 + t] == b[t]);
        }
        lemma_split_shift(s, b, d + 1, 0);
        assert(split_from(s, i) =~= seq![s.subrange(i, d)] + split_from(s, d + 1));
        assert(split_from(a, i) =~= seq![a.subrange(i, a.len() as int)]);
    }
}

/// Index of the next `.` at or after `i`, or the end of the text.
pub fn seg_end_at(v: &Vec<char>, i: usize) -> (r: usize)
    requires
        i <= v@.len(),
    ensures
        r == seg_end(v@, i as int),
        i <= r <= v@.len(),
    decreases v@.len() - i,
{
    proof {
        lemma_seg_end_bounds(v@, i as int);
    }
    if i < v.len() && v[i] != '.' {
        seg_end_at(v, i + 1)
    } else {
        i
    }
}

/// The characters `v[from..to]`, in order.
pub fn subvec(v: &Vec<char>, from: usize, to: usize) -> (r: Vec<char>)
    requires
        from <= to <= v@.len(),
    ensures
        r@ == v@.subrange(from as int, to as int),
{
    let mut r: Vec<char> = Vec::new();
    let mut i: usize = from;
    while i < to
        invariant
            from <= i <= to <= v@.len(),
            r@ == v@.subrange(from as int, i as int),
        decreases to - i,
    {
        r.push(v[i]);
        proof {
            assert(r@ =~= v@.subrange(from as int, i + 1));
        }
        i = i + 1;
    }
    r
}

} // verus!
