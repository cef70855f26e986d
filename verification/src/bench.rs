//! What the benchmarks read from their arguments and make of results.
use crate::binary64::Binary64;
use crate::numbers::ONE_PERCENT_MORE;
use crate::source::SbplResult;
use crate::text::{parse_unsigned, same_text, unsigned_value};
use crate::table::texts;
use vstd::prelude::*;
use vstd::string::*;

verus! {

/// The first place of a flag that has an argument after it.
pub open spec fn flag_place(args: Seq<Seq<char>>, flag: Seq<char>, i: int) -> bool {
    &&& 0 <= i < args.len() - 1
    &&& args[i] == flag
    &&& forall|j: int| 0 <= j < i ==> #[trigger] args[j] != flag
}

/// The number behind the first use of a flag.
pub open spec fn flag_value(args: Seq<Seq<char>>, flag: Seq<char>) -> Option<nat> {
    if exists|i: int| flag_place(args, flag, i) {
        let i = choose|i: int| flag_place(args, flag, i);
        unsigned_value(args[i + 1], usize::MAX as nat)
    } else {
        None
    }
}

/// Reads the number behind a flag. A first use that no number follows counts as
/// none, whatever comes later.
pub fn parse_usize_flag(args: &Vec<String>, flag: &str) -> (r: Option<usize>)
    ensures
        match r {
            Some(n) => flag_value(texts(args@), flag@) == Some(n as nat),
            None => flag_value(texts(args@), flag@) is None,
        },
{
    let ghost all = texts(args@);
    let mut i: usize = 0;
    while i < args.len() && i + 1 < args.len()
        invariant
            i <= args.len(),
            args.len() > 0 ==> i + 1 <= args.len(),
            all == texts(args@),
            forall|j: int| 0 <= j < i ==> #[trigger] all[j] != flag@,
        decreases args.len() - i,
    {
        if same_text(args[i].as_str(), flag) {
            proof {
                assert(flag_place(all, flag@, i as int));
                let k = choose|k: int| flag_place(all, flag@, k);
                assert(flag_place(all, flag@, k));
                assert(k == i) by {
                    if k < i {
                        assert(all[k] != flag@);
                    }
                    if i < k {
                        assert(all[i as int] != flag@);
                    }
                }
            }
            return match parse_unsigned(args[i + 1].as_str(), usize::MAX as u64) {
                Some(n) => Some(n as usize),
                None => None,
            };
        }
        i += 1;
    }
    proof {
        if exists|k: int| flag_place(all, flag@, k) {
            let k = choose|k: int| flag_place(all, flag@, k);
            assert(all[k] != flag@);
        }
    }
    None
}

/// A text that starts with two dashes.
pub open spec fn is_option(s: Seq<char>) -> bool {
    s.len() >= 2 && s[0] == '-' && s[1] == '-'
}

/// An argument that names the data directory: neither an option nor a number.
pub open spec fn names_directory(s: Seq<char>) -> bool {
    !is_option(s) && unsigned_value(s, usize::MAX as nat) is None
}

/// Finds the data directory: the first argument after the program's name that is
/// neither an option nor a number.
pub fn data_dir(args: &Vec<String>) -> (r: Option<usize>)
    ensures
        match r {
            Some(i) => {
                &&& 1 <= i < args.len()
                &&& names_directory(args@[i as int]@)
                &&& forall|j: int| 1 <= j < i ==> !names_directory((#[trigger] args@[j])@)
            },
            None => forall|j: int|
                1 <= j < args.len() ==> !names_directory((#[trigger] args@[j])@),
        },
{
    let mut i: usize = 1;
    while i < args.len()
        invariant
            1 <= i,
            forall|j: int| 1 <= j < i && j < args.len() ==> !names_directory((#[trigger] args@[j])@),
        decreases args.len() - i,
    {
        let s: &str = args[i].as_str();
        let dashed: bool = s.unicode_len() >= 2 && s.get_char(0) == '-' && s.get_char(1) == '-';
        let numeral: bool = match parse_unsigned(s, usize::MAX as u64) {
            Some(_) => true,
            None => false,
        };
        if !dashed && !numeral {
            return Some(i);
        }
        i += 1;
    }
    None
}

/// The reduced chi-squareds that are there.
pub open spec fn reported(results: Seq<SbplResult>) -> Seq<Binary64>
    decreases results.len(),
{
    if results.len() == 0 {
        seq![]
    } else {
        match results.last().reduced_chi2 {
            Some(v) => reported(results.drop_last()).push(v),
            None => reported(results.drop_last()),
        }
    }
}

/// Numbers in ascending order.
pub open spec fn ascending(v: Seq<Binary64>) -> bool {
    forall|i: int, j: int|
        0 <= i < j < v.len() ==> !(#[trigger] v[j]).lt(#[trigger] v[i])
}

/// The sum of a row of numbers, from the first to the last.
pub open spec fn total(v: Seq<Binary64>) -> Binary64
    decreases v.len(),
{
    if v.len() == 0 {
        Binary64::zero()
    } else {
        total(v.drop_last()).plus(v.last())
    }
}

/// Puts a number in its place among ascending numbers.
fn insert_sorted(v: &mut Vec<Binary64>, x: Binary64)
    requires
        ascending(old(v)@),
        !x.is_nan(),
        forall|i: int| 0 <= i < old(v).len() ==> !(#[trigger] old(v)@[i]).is_nan(),
    ensures
        ascending(final(v)@),
        final(v).len() == old(v).len() + 1,
        final(v)@.to_multiset() == old(v)@.to_multiset().insert(x),
        forall|i: int| 0 <= i < final(v).len() ==> !(#[trigger] final(v)@[i]).is_nan(),
{
    let ghost before = v@;
    let mut k: usize = 0;
    while k < v.len() && !x.lt(v[k])
        invariant
            k <= v.len(),
            v@ == before,
            forall|j: int| 0 <= j < k ==> !x.lt(#[trigger] before[j]),
        decreases v.len() - k,
    {
        k += 1;
    }
    let ghost at = k as int;
    v.insert(k, x);
    proof {
        vstd::seq_lib::to_multiset_insert(before, at, x);
        assert forall|i: int, j: int| 0 <= i < j < v@.len() implies !(#[trigger] v@[j]).lt(
            #[trigger] v@[i],
        ) by {
            if i == at {
                assert(v@[j] == before[j - 1]);
                assert(x.lt(before[at]));
                if at < j - 1 {
                    assert(!before[j - 1].lt(before[at]));
                }
            } else {
                let a = if i < at {
                    i
                } else {
                    i - 1
                };
                assert(v@[i] == before[a]);
                if j != at {
                    let b = if j < at {
                        j
                    } else {
                        j - 1
                    };
                    assert(v@[j] == before[b]);
                }
            }
        }
        assert forall|i: int| 0 <= i < v@.len() implies !(#[trigger] v@[i]).is_nan() by {
            if i < at {
                assert(v@[i] == before[i]);
            } else if i > at {
                assert(v@[i] == before[i - 1]);
            }
        }
    }
}

/// What the reduced chi-squareds of results amount to, in ascending order: their
/// number, their mean and their median. Of an even number the median is the
/// upper of the middle two; of none, mean and median are not-a-number.
pub open spec fn is_summary(
    values: Seq<Binary64>,
    sorted: Seq<Binary64>,
    r: (usize, Binary64, Binary64),
) -> bool {
    &&& ascending(sorted)
    &&& sorted.to_multiset() == values.to_multiset()
    &&& sorted.len() == values.len()
    &&& r.0 == values.len()
    &&& values.len() == 0 ==> r.1 == Binary64::nan() && r.2 == Binary64::nan()
    &&& values.len() > 0 ==> r.1 == total(sorted).over(Binary64::of_count(values.len() as u64))
        && r.2 == sorted[values.len() as int / 2]
}

/// Summarises the reduced chi-squareds of results.
pub fn chi2_stats(results: &Vec<SbplResult>) -> (r: (usize, Binary64, Binary64))
    requires
        forall|i: int|
            0 <= i < results.len() ==> ((#[trigger] results@[i]).reduced_chi2 matches Some(v)
                ==> !v.is_nan()),
    ensures
        exists|sorted: Seq<Binary64>| #[trigger] is_summary(reported(results@), sorted, r),
{
    let mut v: Vec<Binary64> = Vec::new();
    let mut i: usize = 0;
    assert(results@.subrange(0, 0) =~= seq![]);
    while i < results.len()
        invariant
            i <= results.len(),
            forall|j: int|
                0 <= j < results.len() ==> ((#[trigger] results@[j]).reduced_chi2 matches Some(x)
                    ==> !x.is_nan()),
            ascending(v@),
            v.len() == reported(results@.subrange(0, i as int)).len(),
            v@.to_multiset() == reported(results@.subrange(0, i as int)).to_multiset(),
            forall|j: int| 0 <= j < v.len() ==> !(#[trigger] v@[j]).is_nan(),
            v.len() <= i,
        decreases results.len() - i,
    {
        proof {
            assert(results@.subrange(0, i + 1).drop_last() =~= results@.subrange(0, i as int));
            assert(results@.subrange(0, i + 1).last() == results@[i as int]);
        }
        if let Some(x) = results[i].reduced_chi2 {
            proof {
                vstd::seq_lib::to_multiset_build(
                    reported(results@.subrange(0, i as int)),
                    x,
                );
            }
            insert_sorted(&mut v, x);
        }
        i += 1;
    }
    assert(results@.subrange(0, results.len() as int) =~= results@);
    if v.len() == 0 {
        let r: (usize, Binary64, Binary64) = (0, Binary64::nan(), Binary64::nan());
        assert(is_summary(reported(results@), v@, r));
        return r;
    }
    let mut sum: Binary64 = Binary64::zero();
    let mut k: usize = 0;
    assert(v@.subrange(0, 0) =~= seq![]);
    while k < v.len()
        invariant
            k <= v.len(),
            sum == total(v@.subrange(0, k as int)),
        decreases v.len() - k,
    {
        assert(v@.subrange(0, k + 1).drop_last() =~= v@.subrange(0, k as int));
        sum = sum.plus(v[k]);
        k += 1;
    }
    assert(v@.subrange(0, v.len() as int) =~= v@);
    let mean: Binary64 = sum.over(Binary64::of_count(v.len() as u64));
    let median: Binary64 = v[v.len() / 2];
    let r: (usize, Binary64, Binary64) = (v.len(), mean, median);
    assert(is_summary(reported(results@), v@, r));
    r
}

/// How one fit compares with another.
#[derive(Clone, Copy, Debug, PartialEq, Eq, Structural)]
pub enum Standing {
    /// No worse.
    Better,
    /// Worse by no more than 1%.
    Close,
    /// Worse, or one of the two has no reduced chi-squared.
    Worse,
}

/// How a fit compares with another.
pub open spec fn standing(a: SbplResult, b: SbplResult) -> Standing {
    match (a.reduced_chi2, b.reduced_chi2) {
        (Some(x), Some(y)) => if x.le(y) {
            Standing::Better
        } else if x.le(y.times(Binary64 { bits: ONE_PERCENT_MORE })) {
            Standing::Close
        } else {
            Standing::Worse
        },
        _ => Standing::Worse,
    }
}

/// How many of the first `n` pairs of fits compare so.
pub open spec fn standings(
    a: Seq<SbplResult>,
    b: Seq<SbplResult>,
    wanted: Standing,
    n: nat,
) -> nat
    decreases n,
{
    if n == 0 {
        0
    } else {
        standings(a, b, wanted, (n - 1) as nat) + if standing(a[n - 1], b[n - 1]) == wanted {
            1nat
        } else {
            0
        }
    }
}

/// Compares fits pair by pair: counts those better, close and worse.
pub fn compare_fits(a: &Vec<SbplResult>, b: &Vec<SbplResult>) -> (r: (usize, usize, usize))
    ensures
        ({
            let n = if a.len() <= b.len() {
                a.len() as nat
            } else {
                b.len() as nat
            };
            &&& r.0 == standings(a@, b@, Standing::Better, n)
            &&& r.1 == standings(a@, b@, Standing::Close, n)
            &&& r.2 == standings(a@, b@, Standing::Worse, n)
            &&& r.0 + r.1 + r.2 == n
        }),
{
    let mut better: usize = 0;
    let mut close: usize = 0;
    let mut worse: usize = 0;
    let mut i: usize = 0;
    while i < a.len() && i < b.len()
        invariant
            i <= a.len(),
            i <= b.len(),
            better == standings(a@, b@, Standing::Better, i as nat),
            close == standings(a@, b@, Standing::Close, i as nat),
            worse == standings(a@, b@, Standing::Worse, i as nat),
            better + close + worse == i,
        decreases a.len() - i,
    {
        match (a[i].reduced_chi2, b[i].reduced_chi2) {
            (Some(x), Some(y)) => {
                if x.le(y) {
                    better += 1;
                } else if x.le(y.times(Binary64 { bits: ONE_PERCENT_MORE })) {
                    close += 1;
                } else {
                    worse += 1;
                }
            },
            _ => {
                worse += 1;
            },
        }
        i += 1;
    }
    (better, close, worse)
}

} // verus!
