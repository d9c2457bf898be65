use vstd::prelude::*;

verus! {

use vstd::seq_lib::group_to_multiset_ensures;

/// How many checkpoint files are kept.
pub const RETAIN_FILES: usize = 3;

/// The number a string of decimal digit bytes spells, most significant first.
pub open spec fn dec_value(s: Seq<u8>) -> int
    decreases s.len(),
{
    if s.len() == 0 {
        0
    } else {
        dec_value(s.drop_last()) * 10 + (s.last() - 0x30)
    }
}

/// Every byte is an ASCII decimal digit.
pub open spec fn all_digits(s: Seq<u8>) -> bool {
    forall|i: int| 0 <= i < s.len() ==> 0x30 <= #[trigger] s[i] <= 0x39
}

/// A digit string spells a non-negative number.
proof fn lemma_dec_value_nonneg(s: Seq<u8>)
    requires
        all_digits(s),
    ensures
        dec_value(s) >= 0,
    decreases s.len(),
{
    if s.len() > 0 {
        assert(all_digits(s.drop_last()));
        lemma_dec_value_nonneg(s.drop_last());
    }
}

/// Dropping trailing digits never raises the value.
proof fn lemma_dec_value_prefix(s: Seq<u8>, i: int)
    requires
        all_digits(s),
        0 <= i <= s.len(),
    ensures
        dec_value(s.take(i)) <= dec_value(s),
    decreases s.len() - i,
{
    if i < s.len() {
        lemma_dec_value_prefix(s, i + 1);
        assert(s.take(i + 1).drop_last() =~= s.take(i));
        assert(all_digits(s.take(i)));
        lemma_dec_value_nonneg(s.take(i));
    } else {
        assert(s.take(i) =~= s);
    }
}

/// The decimal digit string of `x`, most significant digit first and without
/// leading zeroes: what `parse_u64_decimal` reads back as `x`.
pub fn format_u64_decimal(x: u64) -> (r: Vec<u8>)
    ensures
        all_digits(r@),
        dec_value(r@) == x,
        r@.len() >= 1,
        x >= 1 ==> r@[0] != 0x30,
    decreases x,
{
    if x < 10 {
        let mut r: Vec<u8> = Vec::new();
        r.push(0x30 + x as u8);
        proof {
            assert(r@.drop_last() =~= Seq::<u8>::empty());
            assert(dec_value(Seq::<u8>::empty()) == 0);
        }
        r
    } else {
        let mut r = format_u64_decimal(x / 10);
        let ghost prev = r@;
        r.push(0x30 + (x % 10) as u8);
        proof {
            assert(r@.drop_last() =~= prev);
            vstd::arithmetic::div_mod::lemma_fundamental_div_mod(x as int, 10);
        }
        r
    }
}

/// Parses a string of decimal digit bytes, as checkpoint files are named, into
/// the number it spells. Fails exactly on an empty string, a non-digit byte,
/// or a value too large for 64 bits.
pub fn parse_u64_decimal(s: &Vec<u8>) -> (r: Option<u64>)
    ensures
        r matches Some(x) ==> s@.len() > 0 && all_digits(s@) && x == dec_value(s@),
        r is None <==> !(s@.len() > 0 && all_digits(s@) && dec_value(s@) <= u64::MAX),
{
    if s.len() == 0 {
        return None;
    }
    let mut acc: u64 = 0;
    let mut i: usize = 0;
    while i < s.len()
        invariant
            0 < s@.len(),
            0 <= i <= s@.len(),
            forall|k: int| 0 <= k < i ==> 0x30 <= #[trigger] s@[k] <= 0x39,
            acc == dec_value(s@.take(i as int)),
        decreases s@.len() - i,
    {
        let b = s[i];
        if b < 0x30 || b > 0x39 {
            return None;
        }
        let d = (b - 0x30) as u64;
        proof {
            assert(s@.take(i + 1).drop_last() =~= s@.take(i as int));
        }
        let scaled = match acc.checked_mul(10) {
            Some(v) => v,
            None => {
                proof {
                    if all_digits(s@) {
                        lemma_dec_value_prefix(s@, i + 1);
                    }
                }
                return None;
            },
        };
        let next = match scaled.checked_add(d) {
            Some(v) => v,
            None => {
                proof {
                    if all_digits(s@) {
                        lemma_dec_value_prefix(s@, i + 1);
                    }
                }
                return None;
            },
        };
        acc = next;
        i = i + 1;
    }
    proof {
        assert(s@.take(s@.len() as int) =~= s@);
    }
    Some(acc)
}

/// Ascending order.
pub open spec fn sorted_asc(s: Seq<u64>) -> bool {
    forall|i: int, j: int| 0 <= i < j < s.len() ==> s[i] <= s[j]
}

/// What to do with a checkpoint directory: which timestamps to delete and
/// which to keep, both ascending; the last kept one is loaded.
pub struct RetentionPlan {
    pub delete: Vec<u64>,
    pub keep: Vec<u64>,
}

/// The given timestamps in ascending order: same multiset, sorted.
pub fn sort_stamps(input: &Vec<u64>) -> (s: Vec<u64>)
    ensures
        s@.len() == input@.len(),
        s@.to_multiset() == input@.to_multiset(),
        sorted_asc(s@),
{
    broadcast use group_to_multiset_ensures;

    let mut work: Vec<u64> = Vec::new();
    let mut k: usize = 0;
    while k < input.len()
        invariant
            0 <= k <= input@.len(),
            work@ == input@.take(k as int),
        decreases input@.len() - k,
    {
        work.push(input[k]);
        assert(work@ =~= input@.take(k + 1));
        k = k + 1;
    }
    assert(work@ =~= input@);
    let ghost all = input@.to_multiset();
    let mut out: Vec<u64> = Vec::new();
    while work.len() > 0
        invariant
            out@.to_multiset().add(work@.to_multiset()) == all,
            out@.len() + work@.len() == input@.len(),
            sorted_asc(out@),
            forall|i: int, j: int|
                0 <= i < out@.len() && 0 <= j < work@.len() ==> out@[i] <= work@[j],
        decreases work@.len(),
    {
        let mut mi: usize = 0;
        let mut t: usize = 1;
        while t < work.len()
            invariant
                0 <= mi < work@.len(),
                mi < t <= work@.len() || (t <= work@.len() && mi == 0),
                forall|j: int| 0 <= j < t ==> work@[mi as int] <= work@[j],
            decreases work@.len() - t,
        {
            if work[t] < work[mi] {
                mi = t;
            }
            t = t + 1;
        }
        let ghost work0 = work@;
        let ghost out0 = out@;
        let x = work.remove(mi);
        out.push(x);
        proof {
            broadcast use group_to_multiset_ensures;

            assert(work0.contains(x));
            assert(work0.to_multiset().count(x) > 0);
            assert(out@.to_multiset() =~= out0.to_multiset().insert(x));
            assert(work@.to_multiset() =~= work0.to_multiset().remove(x));
            assert(out@.to_multiset().add(work@.to_multiset()) =~= out0.to_multiset().add(
                work0.to_multiset(),
            ));
            assert(out@.to_multiset().add(work@.to_multiset()) == all);
            assert(forall|j: int|
                0 <= j < work@.len() ==> x <= #[trigger] work@[j]) by {
                assert(forall|j: int|
                    0 <= j < work@.len() ==> work@[j] == work0[if j < mi {
                        j
                    } else {
                        j + 1
                    }]);
            }
        }
    }
    out
}

/// The retention decision for a directory of checkpoint timestamps: everything
/// beyond the newest `RETAIN_FILES` is deleted, oldest first. Both parts come
/// back ascending, together a permutation of the input; everything deleted is
/// no newer than anything kept.
pub fn plan_retention(stamps: &Vec<u64>) -> (plan: RetentionPlan)
    ensures
        plan.keep@.len() == if stamps@.len() < RETAIN_FILES {
            stamps@.len() as int
        } else {
            RETAIN_FILES as int
        },
        plan.delete@.len() + plan.keep@.len() == stamps@.len(),
        (plan.delete@ + plan.keep@).to_multiset() == stamps@.to_multiset(),
        sorted_asc(plan.delete@ + plan.keep@),
{
    let mut s = sort_stamps(stamps);
    let cut: usize = if s.len() > RETAIN_FILES {
        s.len() - RETAIN_FILES
    } else {
        0
    };
    let ghost sorted_all = s@;
    let keep = s.split_off(cut);
    proof {
        assert(s@ + keep@ =~= sorted_all);
    }
    RetentionPlan { delete: s, keep }
}

} // verus!
