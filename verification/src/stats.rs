//! Aggregate statistics over repeated requests: fastest, slowest, mean
//! numerator, median, success rate numerator, sorted deduplicated
//! unsuccessful codes, and size extremes.

use vstd::prelude::*;
use vstd::relations::{sorted_by, total_ordering};
use vstd::seq_lib::{lemma_multiset_commutative, lemma_sorted_unique};

use crate::numbers::{dec_rep, push_dec_u16};
use crate::response::Response;

verus! {

broadcast use {vstd::seq_lib::group_to_multiset_ensures, vstd::multiset::group_multiset_axioms};

/// The ordering by which response times are sorted.
pub open spec fn time_leq() -> spec_fn(u128, u128) -> bool {
    |a: u128, b: u128| a <= b
}

pub proof fn lemma_time_leq_total()
    ensures
        total_ordering(time_leq()),
{
    assert(vstd::relations::reflexive(time_leq()));
    assert(vstd::relations::antisymmetric(time_leq()));
    assert(vstd::relations::transitive(time_leq()));
    assert(vstd::relations::strongly_connected(time_leq()));
}

/// The times sorted in nondecreasing order.
pub open spec fn sorted_times(s: Seq<u128>) -> Seq<u128> {
    s.sort_by(time_leq())
}

/// The median: the middle element of the sorted times, or for an even count
/// the mean of the two middle elements with any fractional half truncated.
pub open spec fn median_spec(s: Seq<u128>) -> int
    recommends
        s.len() > 0,
{
    let t = sorted_times(s);
    let mid = s.len() as int / 2;
    if s.len() % 2 == 0 {
        (t[mid - 1] + t[mid]) / 2
    } else {
        t[mid] as int
    }
}

/// Inserting into a sequence adds one occurrence to its multiset.
proof fn lemma_insert_to_multiset(s: Seq<u128>, i: int, a: u128)
    requires
        0 <= i <= s.len(),
    ensures
        s.insert(i, a).to_multiset() =~= s.to_multiset().insert(a),
{
    assert(s.insert(i, a) =~= s.take(i).push(a) + s.skip(i));
    lemma_multiset_commutative(s.take(i).push(a), s.skip(i));
    assert(s =~= s.take(i) + s.skip(i));
    lemma_multiset_commutative(s.take(i), s.skip(i));
    assert(s.take(i).push(a).to_multiset() =~= s.take(i).to_multiset().insert(a));
}

/// Inserts `x` into the sorted vector `out`, keeping it sorted.
fn insert_sorted_time(out: &mut Vec<u128>, x: u128)
    requires
        sorted_by(old(out)@, time_leq()),
    ensures
        sorted_by(final(out)@, time_leq()),
        final(out)@.to_multiset() == old(out)@.to_multiset().insert(x),
{
    let n = out.len();
    let mut pos: usize = 0;
    while pos < n && out[pos] <= x
        invariant
            pos <= n == out@.len(),
            forall|k: int| 0 <= k < pos ==> out@[k] <= x,
        decreases n - pos,
    {
        pos = pos + 1;
    }
    proof {
        assert forall|k: int| pos <= k < out@.len() implies x < out@[k] by {
            assert(time_leq()(out@[pos as int], out@[k]) || k == pos);
        }
    }
    let ghost before = out@;
    out.insert(pos, x);
    proof {
        lemma_insert_to_multiset(before, pos as int, x);
        assert forall|k1: int, k2: int| 0 <= k1 < k2 < out@.len() implies #[trigger] time_leq()(
            out@[k1],
            out@[k2],
        ) by {
            if k1 < pos && k2 < pos {
                assert(time_leq()(before[k1], before[k2]));
            } else if k1 > pos && k2 > pos {
                assert(time_leq()(before[k1 - 1], before[k2 - 1]));
            } else if k2 == pos {
                assert(before[k1] <= x);
            } else if k1 == pos {
                assert(x < before[k2 - 1]);
            } else if k1 < pos && k2 > pos {
                assert(time_leq()(before[k1], before[k2 - 1]));
            }
        }
    }
}

/// Computes the median of a nonempty list of times: the list is sorted and
/// the middle taken; for an even count the two middle values are averaged
/// with integer truncation.
pub fn median(numbers: Vec<u128>) -> (r: u128)
    requires
        numbers@.len() > 0,
    ensures
        r == median_spec(numbers@),
{
    let len = numbers.len();
    let mut sorted: Vec<u128> = Vec::new();
    let mut idx: usize = 0;
    while idx < len
        invariant
            idx <= len == numbers@.len(),
            sorted_by(sorted@, time_leq()),
            sorted@.to_multiset() == numbers@.take(idx as int).to_multiset(),
        decreases len - idx,
    {
        let ghost prefix = numbers@.take(idx as int);
        insert_sorted_time(&mut sorted, numbers[idx]);
        idx = idx + 1;
        proof {
            assert(numbers@.take(idx as int) =~= prefix.push(numbers@[idx - 1]));
            assert(prefix.push(numbers@[idx - 1]).to_multiset() =~= prefix.to_multiset().insert(
                numbers@[idx - 1],
            ));
        }
    }
    proof {
        assert(numbers@.take(len as int) =~= numbers@);
        lemma_time_leq_total();
        numbers@.lemma_sort_by_ensures(time_leq());
        lemma_sorted_unique(sorted@, sorted_times(numbers@), time_leq());
        assert(sorted@.to_multiset().len() == sorted@.len());
        assert(numbers@.to_multiset().len() == numbers@.len());
    }
    let n = sorted.len();
    let mid = n / 2;
    if n % 2 == 0 {
        avg2(sorted[mid - 1], sorted[mid])
    } else {
        sorted[mid]
    }
}

/// The mean of two values with the fractional half truncated, free of
/// overflow.
fn avg2(a: u128, b: u128) -> (r: u128)
    ensures
        r == (a + b) / 2,
{
    let r = a / 2 + b / 2 + (a % 2 + b % 2) / 2;
    proof {
        assert(a + b == 2 * (a / 2) + 2 * (b / 2) + (a % 2 + b % 2)) by {
            assert(a == 2 * (a / 2) + a % 2);
            assert(b == 2 * (b / 2) + b % 2);
        }
        assert(r == (a + b) / 2) by {
            let p = a / 2;
            let q = b / 2;
            let s = a % 2 + b % 2;
            assert(0 <= s < 4);
            assert((2 * p + 2 * q + s) / 2 == p + q + s / 2) by (nonlinear_arith)
                requires
                    p >= 0,
                    q >= 0,
                    0 <= s < 4,
            ;
        }
    }
    r
}

/// A status code counts as successful exactly when it lies in [200, 300):
/// redirects and everything else outside that range are unsuccessful.
pub open spec fn is_success(status: u16) -> bool {
    200 <= status < 300
}

/// The elapsed times of the responses.
pub open spec fn times_of(rs: Seq<Response>) -> Seq<u128> {
    rs.map_values(|r: Response| r.time_taken)
}

/// The raw byte sizes of the responses.
pub open spec fn sizes_of(rs: Seq<Response>) -> Seq<usize> {
    rs.map_values(|r: Response| r.size)
}

/// The least element of a nonempty sequence of times.
pub open spec fn min_time(s: Seq<u128>) -> u128
    recommends
        s.len() > 0,
    decreases s.len(),
{
    if s.len() <= 1 {
        s[0]
    } else {
        let m = min_time(s.drop_last());
        if s.last() < m {
            s.last()
        } else {
            m
        }
    }
}

/// The greatest element of a nonempty sequence of times.
pub open spec fn max_time(s: Seq<u128>) -> u128
    recommends
        s.len() > 0,
    decreases s.len(),
{
    if s.len() <= 1 {
        s[0]
    } else {
        let m = max_time(s.drop_last());
        if s.last() > m {
            s.last()
        } else {
            m
        }
    }
}

/// The least element of a nonempty sequence of sizes.
pub open spec fn min_size(s: Seq<usize>) -> usize
    recommends
        s.len() > 0,
    decreases s.len(),
{
    if s.len() <= 1 {
        s[0]
    } else {
        let m = min_size(s.drop_last());
        if s.last() < m {
            s.last()
        } else {
            m
        }
    }
}

/// The greatest element of a nonempty sequence of sizes.
pub open spec fn max_size(s: Seq<usize>) -> usize
    recommends
        s.len() > 0,
    decreases s.len(),
{
    if s.len() <= 1 {
        s[0]
    } else {
        let m = max_size(s.drop_last());
        if s.last() > m {
            s.last()
        } else {
            m
        }
    }
}

/// The exact sum of the times.
pub open spec fn sum_times(s: Seq<u128>) -> int
    decreases s.len(),
{
    if s.len() == 0 {
        0
    } else {
        sum_times(s.drop_last()) + s.last()
    }
}

/// How many responses were successful.
pub open spec fn count_success(rs: Seq<Response>) -> int
    decreases rs.len(),
{
    if rs.len() == 0 {
        0
    } else {
        count_success(rs.drop_last()) + if is_success(rs.last().status) {
            1int
        } else {
            0int
        }
    }
}

/// `c` is the status of some response and is unsuccessful.
pub open spec fn is_unsuccessful_in(rs: Seq<Response>, c: u16) -> bool {
    !is_success(c) && exists|i: int| 0 <= i < rs.len() && rs[i].status == c
}

/// Each element is strictly below the next: sorted with no duplicates.
pub open spec fn strictly_increasing(s: Seq<u16>) -> bool {
    forall|k1: int, k2: int| 0 <= k1 < k2 < s.len() ==> s[k1] < s[k2]
}

/// The sum of the times never shrinks as the sequence grows.
proof fn lemma_sum_times_prefix(s: Seq<u128>, i: int)
    requires
        0 <= i <= s.len(),
    ensures
        0 <= sum_times(s.take(i)) <= sum_times(s),
    decreases s.len(),
{
    if i < s.len() {
        assert(s.take(i) =~= s.drop_last().take(i));
        lemma_sum_times_prefix(s.drop_last(), i);
    } else {
        assert(s.take(i) =~= s);
        if s.len() > 0 {
            lemma_sum_times_prefix(s.drop_last(), s.len() - 1);
            assert(s.drop_last().take(s.len() - 1) =~= s.drop_last());
        }
    }
}

/// Inserts an unsuccessful code into the strictly increasing vector of
/// codes seen so far, keeping it strictly increasing and duplicate-free.
fn insert_code(codes: &mut Vec<u16>, c: u16)
    requires
        strictly_increasing(old(codes)@),
    ensures
        strictly_increasing(final(codes)@),
        forall|x: u16| final(codes)@.contains(x) <==> (old(codes)@.contains(x) || x == c),
{
    let n = codes.len();
    let mut pos: usize = 0;
    while pos < n && codes[pos] < c
        invariant
            pos <= n == codes@.len(),
            forall|k: int| 0 <= k < pos ==> codes@[k] < c,
        decreases n - pos,
    {
        pos = pos + 1;
    }
    if pos < n && codes[pos] == c {
        return ;
    }
    let ghost before = codes@;
    proof {
        assert forall|k: int| pos <= k < before.len() implies c < before[k] by {
            if k > pos {
                assert(before[pos as int] < before[k]);
            }
        }
    }
    codes.insert(pos, c);
    proof {
        before.insert_ensures(pos as int, c);
        assert forall|k1: int, k2: int| 0 <= k1 < k2 < codes@.len() implies codes@[k1]
            < codes@[k2] by {
            assert(codes@[k1] == if k1 < pos {
                before[k1]
            } else if k1 == pos {
                c
            } else {
                before[k1 - 1]
            });
            assert(codes@[k2] == if k2 < pos {
                before[k2]
            } else if k2 == pos {
                c
            } else {
                before[k2 - 1]
            });
        }
        assert forall|x: u16| codes@.contains(x) <==> (before.contains(x) || x == c) by {
            if codes@.contains(x) {
                let k = choose|k: int| 0 <= k < codes@.len() && codes@[k] == x;
                if k < pos {
                    assert(before[k] == x);
                } else if k > pos {
                    assert(before[k - 1] == x);
                }
            }
            if before.contains(x) {
                let k = choose|k: int| 0 <= k < before.len() && before[k] == x;
                if k < pos {
                    assert(codes@[k] == x);
                } else {
                    assert(codes@[k + 1] == x);
                }
            }
            if x == c {
                assert(codes@[pos as int] == c);
            }
        }
    }
}

/// The aggregate report over one profiling run. The mean is carried exactly
/// as the sum of the times over the number of runs; the unsuccessful codes
/// are sorted and deduplicated.
pub struct Report {
    pub runs: usize,
    pub fastest: u128,
    pub slowest: u128,
    pub time_sum: u128,
    pub median: u128,
    pub success_count: usize,
    pub unsuccessful_codes: Vec<u16>,
    pub smallest: usize,
    pub largest: usize,
}

/// Aggregates a nonempty run of responses into the report: extremes of time
/// and size, exact time sum (the mean's numerator), median, how many
/// responses were successful, and the sorted deduplicated unsuccessful
/// codes.
pub fn summarize(responses: &Vec<Response>) -> (rep: Report)
    requires
        responses@.len() > 0,
        sum_times(times_of(responses@)) <= u128::MAX,
    ensures
        rep.runs == responses@.len(),
        rep.fastest == min_time(times_of(responses@)),
        rep.slowest == max_time(times_of(responses@)),
        rep.time_sum == sum_times(times_of(responses@)),
        rep.median == median_spec(times_of(responses@)),
        rep.success_count == count_success(responses@),
        strictly_increasing(rep.unsuccessful_codes@),
        forall|c: u16| rep.unsuccessful_codes@.contains(c) <==> is_unsuccessful_in(responses@, c),
        rep.smallest == min_size(sizes_of(responses@)),
        rep.largest == max_size(sizes_of(responses@)),
{
    let n = responses.len();
    let ghost rs = responses@;
    let ghost ts = times_of(responses@);
    let ghost zs = sizes_of(responses@);
    let mut times: Vec<u128> = Vec::new();
    let mut codes: Vec<u16> = Vec::new();
    let mut fastest: u128 = responses[0].time_taken;
    let mut slowest: u128 = responses[0].time_taken;
    let mut time_sum: u128 = 0;
    let mut success_count: usize = 0;
    let mut smallest: usize = responses[0].size;
    let mut largest: usize = responses[0].size;
    let mut i: usize = 0;
    proof {
        assert(ts.take(1) =~= seq![ts[0]]);
        assert(zs.take(1) =~= seq![zs[0]]);
    }
    while i < n
        invariant
            i <= n == rs.len(),
            rs == responses@,
            ts == times_of(rs),
            zs == sizes_of(rs),
            sum_times(ts) <= u128::MAX,
            times@ == ts.take(i as int),
            i > 0 ==> fastest == min_time(ts.take(i as int)),
            i > 0 ==> slowest == max_time(ts.take(i as int)),
            i == 0 ==> fastest == ts[0] && slowest == ts[0],
            i == 0 ==> smallest == zs[0] && largest == zs[0],
            time_sum == sum_times(ts.take(i as int)),
            success_count == count_success(rs.take(i as int)),
            success_count <= i,
            strictly_increasing(codes@),
            forall|c: u16| codes@.contains(c) <==> is_unsuccessful_in(rs.take(i as int), c),
            i > 0 ==> smallest == min_size(zs.take(i as int)),
            i > 0 ==> largest == max_size(zs.take(i as int)),
        decreases n - i,
    {
        let t = responses[i].time_taken;
        let status = responses[i].status;
        let size = responses[i].size;
        proof {
            assert(ts[i as int] == t);
            assert(zs[i as int] == size);
            assert(ts.take(i + 1).drop_last() =~= ts.take(i as int));
            assert(zs.take(i + 1).drop_last() =~= zs.take(i as int));
            assert(rs.take(i + 1).drop_last() =~= rs.take(i as int));
            assert(ts.take(i + 1) =~= ts.take(i as int).push(t));
            lemma_sum_times_prefix(ts, i + 1);
        }
        times.push(t);
        if i == 0 || t < fastest {
            fastest = t;
        }
        if i == 0 || t > slowest {
            slowest = t;
        }
        time_sum = time_sum + t;
        if 200 <= status && status < 300 {
            success_count = success_count + 1;
        } else {
            let ghost codes_before = codes@;
            insert_code(&mut codes, status);
            proof {
                assert forall|c: u16| codes@.contains(c) <==> is_unsuccessful_in(
                    rs.take(i + 1),
                    c,
                ) by {
                    if codes@.contains(c) {
                        if codes_before.contains(c) {
                            let k = choose|k: int|
                                0 <= k < rs.take(i as int).len() && rs.take(i as int)[k].status
                                    == c && !is_success(c);
                            assert(rs.take(i + 1)[k].status == c);
                        } else {
                            assert(rs.take(i + 1)[i as int].status == c);
                        }
                    }
                    if is_unsuccessful_in(rs.take(i + 1), c) {
                        let k = choose|k: int|
                            0 <= k < rs.take(i + 1).len() && #[trigger] rs.take(i + 1)[k].status
                                == c;
                        if k < i {
                            assert(rs.take(i as int)[k].status == c);
                            assert(is_unsuccessful_in(rs.take(i as int), c));
                        }
                    }
                }
            }
        }
        if size < smallest {
            smallest = size;
        }
        if size > largest {
            largest = size;
        }
        i = i + 1;
    }
    proof {
        assert(ts.take(n as int) =~= ts);
        assert(zs.take(n as int) =~= zs);
        assert(rs.take(n as int) =~= rs);
    }
    let med = median(times);
    Report {
        runs: n,
        fastest,
        slowest,
        time_sum,
        median: med,
        success_count,
        unsuccessful_codes: codes,
        smallest,
        largest,
    }
}

/// The report line for the unsuccessful codes: their decimal
/// representations joined with single spaces.
pub open spec fn codes_line(codes: Seq<u16>) -> Seq<u8>
    decreases codes.len(),
{
    if codes.len() == 0 {
        Seq::empty()
    } else if codes.len() == 1 {
        dec_rep(codes[0] as nat)
    } else {
        dec_rep(codes[0] as nat) + seq![32u8] + codes_line(codes.drop_first())
    }
}

proof fn lemma_codes_line_push(codes: Seq<u16>, c: u16)
    ensures
        codes_line(codes.push(c)) == if codes.len() == 0 {
            dec_rep(c as nat)
        } else {
            codes_line(codes) + seq![32u8] + dec_rep(c as nat)
        },
    decreases codes.len(),
{
    if codes.len() == 0 {
        assert(codes.push(c)[0] == c);
        assert(codes_line(codes.push(c)) =~= dec_rep(c as nat));
    } else {
        lemma_codes_line_push(codes.drop_first(), c);
        assert(codes.push(c).drop_first() =~= codes.drop_first().push(c));
        assert(codes_line(codes.push(c)) =~= codes_line(codes) + seq![32u8] + dec_rep(c as nat));
    }
}

/// Renders the unsuccessful codes as space-separated decimal text.
pub fn codes_text(codes: &Vec<u16>) -> (r: Vec<u8>)
    ensures
        r@ == codes_line(codes@),
{
    let n = codes.len();
    let mut out: Vec<u8> = Vec::new();
    let mut i: usize = 0;
    while i < n
        invariant
            i <= n == codes@.len(),
            out@ == codes_line(codes@.take(i as int)),
        decreases n - i,
    {
        let ghost prefix = codes@.take(i as int);
        if i > 0 {
            out.push(32);
        }
        push_dec_u16(&mut out, codes[i]);
        i = i + 1;
        proof {
            assert(codes@.take(i as int) =~= prefix.push(codes@[i - 1]));
            lemma_codes_line_push(prefix, codes@[i - 1]);
        }
    }
    proof {
        assert(codes@.take(n as int) =~= codes@);
    }
    out
}

} // verus!
