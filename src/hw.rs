//! The committed-offset rule: the high watermark is the largest offset that
//! enough replicas, the leader included, have stored.
use vstd::prelude::*;

use crate::Offset;

verus! {

/// How many of `s` are at least `v`.
pub open spec fn count_ge(s: Seq<i64>, v: int) -> nat
    decreases s.len(),
{
    if s.len() == 0 {
        0
    } else {
        count_ge(s.drop_last(), v) + (if s.last() >= v {
            1nat
        } else {
            0nat
        })
    }
}

/// `x` is the `r`-th largest of `s`: an element with at least `r` elements
/// at or above it, and the largest such.
pub open spec fn is_rth_largest(s: Seq<i64>, r: nat, x: i64) -> bool {
    &&& s.contains(x)
    &&& count_ge(s, x as int) >= r
    &&& forall|y: i64| #[trigger] s.contains(y) && count_ge(s, y as int) >= r ==> y <= x
}

/// The high watermark after a recomputation: the `r`-th largest of the log
/// end offsets `leos`, clipped to `[current_hw, leader_leo]`; the current one
/// where there are fewer than `r` of them.
pub open spec fn committed_hw(leos: Seq<i64>, r: nat, leader_leo: int, current_hw: int) -> int {
    if exists|x: i64| is_rth_largest(leos, r, x) {
        let x = choose|x: i64| is_rth_largest(leos, r, x);
        let clipped = if x < leader_leo {
            x as int
        } else {
            leader_leo
        };
        if clipped > current_hw {
            clipped
        } else {
            current_hw
        }
    } else {
        current_hw
    }
}

/// No more elements are counted than there are.
pub proof fn lemma_count_ge_bound(s: Seq<i64>, v: int)
    ensures
        count_ge(s, v) <= s.len(),
    decreases s.len(),
{
    if s.len() > 0 {
        lemma_count_ge_bound(s.drop_last(), v);
    }
}

proof fn lemma_count_ge_all(s: Seq<i64>, v: int)
    requires
        forall|j: int| 0 <= j < s.len() ==> s[j] >= v,
    ensures
        count_ge(s, v) == s.len(),
    decreases s.len(),
{
    if s.len() > 0 {
        lemma_count_ge_all(s.drop_last(), v);
    }
}

/// How many elements of `s` are at least `v`.
pub fn count_at_least(s: &Vec<i64>, v: i64) -> (r: usize)
    ensures
        r == count_ge(s@, v as int),
{
    let mut c: usize = 0;
    let mut i: usize = 0;
    while i < s.len()
        invariant
            i <= s@.len(),
            c == count_ge(s@.subrange(0, i as int), v as int),
        decreases s@.len() - i,
    {
        proof {
            assert(s@.subrange(0, i + 1).drop_last() =~= s@.subrange(0, i as int));
            lemma_count_ge_bound(s@.subrange(0, i as int), v as int);
        }
        if s[i] >= v {
            c = c + 1;
        }
        i = i + 1;
    }
    assert(s@.subrange(0, i as int) =~= s@);
    c
}

/// The `r`-th largest of `s`; none where `s` has fewer than `r` elements
/// or none at all.
pub fn rth_largest(s: &Vec<i64>, r: usize) -> (res: Option<i64>)
    ensures
        res is None <==> (s@.len() < r || s@.len() == 0),
        res matches Some(x) ==> is_rth_largest(s@, r as nat, x),
{
    let mut best: Option<i64> = None;
    let mut low: i64 = 0;
    let mut i: usize = 0;
    while i < s.len()
        invariant
            i <= s@.len(),
            i > 0 ==> exists|j: int| 0 <= j < i && s@[j] == low,
            forall|j: int| 0 <= j < i ==> s@[j] >= low,
            best matches Some(b) ==> exists|j: int| 0 <= j < i && s@[j] == b,
            best matches Some(b) ==> count_ge(s@, b as int) >= r,
            forall|j: int|
                0 <= j < i && count_ge(s@, s@[j] as int) >= r ==> (best matches Some(b) && s@[j]
                    <= b),
        decreases s@.len() - i,
    {
        let v = s[i];
        if i == 0 || v < low {
            low = v;
        }
        let c = count_at_least(s, v);
        if c >= r {
            match best {
                Some(b) => {
                    if v > b {
                        best = Some(v);
                    }
                },
                None => {
                    best = Some(v);
                },
            }
        }
        i = i + 1;
    }
    proof {
        if s@.len() > 0 && s@.len() >= r {
            lemma_count_ge_all(s@, low as int);
        }
        if s@.len() < r {
            assert forall|j: int| 0 <= j < s@.len() implies count_ge(s@, s@[j] as int) < r by {
                lemma_count_ge_bound(s@, s@[j] as int);
            }
        }
        if let Some(b) = best {
            assert forall|y: i64| #[trigger] s@.contains(y) && count_ge(s@, y as int) >= r implies y
                <= b by {
                let j = choose|j: int| 0 <= j < s@.len() && s@[j] == y;
                assert(s@[j] == y);
            }
        }
    }
    best
}

/// The `r`-th largest is unique.
pub proof fn lemma_rth_largest_unique(s: Seq<i64>, r: nat, x: i64, y: i64)
    requires
        is_rth_largest(s, r, x),
        is_rth_largest(s, r, y),
    ensures
        x == y,
{
}

/// Recomputes the high watermark from the leader's log end offset and the
/// log end offsets known of the in-sync followers, for `r` replicas.
pub fn compute_hw(leader_leo: Offset, follower_leos: &Vec<Offset>, r: u16, current_hw: Offset) -> (res:
    Offset)
    requires
        current_hw <= leader_leo,
    ensures
        res == committed_hw(seq![leader_leo] + follower_leos@, r as nat, leader_leo as int, current_hw as int),
        current_hw <= res <= leader_leo,
{
    let mut all: Vec<Offset> = Vec::new();
    all.push(leader_leo);
    let mut i: usize = 0;
    while i < follower_leos.len()
        invariant
            i <= follower_leos@.len(),
            all@ == seq![leader_leo] + follower_leos@.subrange(0, i as int),
        decreases follower_leos@.len() - i,
    {
        all.push(follower_leos[i]);
        i = i + 1;
        assert(all@ =~= seq![leader_leo] + follower_leos@.subrange(0, i as int));
    }
    assert(all@ =~= seq![leader_leo] + follower_leos@);
    match rth_largest(&all, r as usize) {
        Some(x) => {
            proof {
                let c = choose|c: i64| is_rth_largest(all@, r as nat, c);
                lemma_rth_largest_unique(all@, r as nat, x, c);
            }
            let clipped = if x < leader_leo {
                x
            } else {
                leader_leo
            };
            if clipped > current_hw {
                clipped
            } else {
                current_hw
            }
        },
        None => {
            proof {
                if exists|x: i64| is_rth_largest(all@, r as nat, x) {
                    let c = choose|c: i64| is_rth_largest(all@, r as nat, c);
                    lemma_count_ge_bound(all@, c as int);
                }
            }
            current_hw
        },
    }
}

} // verus!
