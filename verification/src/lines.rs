//! Splitting raw response bytes into lines and tokens, and joining body
//! lines back together, with the same boundaries that Rust's `str::lines`
//! and `str::split(" ")` draw.

use vstd::prelude::*;

verus! {

/// Index of the first occurrence of `b` in `s`, or `s.len()` when `s` has none.
pub open spec fn first_byte(s: Seq<u8>, b: u8) -> nat
    decreases s.len(),
{
    if s.len() == 0 {
        0
    } else if s[0] == b {
        0
    } else {
        1 + first_byte(s.drop_first(), b)
    }
}

/// `first_byte` is pinned down by its characterisation: if nothing before
/// `i` is `b` and `i` is either `b` or the end, then `i` is the first.
pub proof fn lemma_first_byte_is(s: Seq<u8>, b: u8, i: int)
    requires
        0 <= i <= s.len(),
        forall|j: int| 0 <= j < i ==> s[j] != b,
        i < s.len() ==> s[i] == b,
    ensures
        first_byte(s, b) == i,
    decreases s.len(),
{
    if s.len() > 0 && s[0] != b {
        assert(forall|j: int| 0 <= j < i - 1 ==> s.drop_first()[j] != b);
        lemma_first_byte_is(s.drop_first(), b, i - 1);
    }
}

/// One carriage return is removed from the end of a line that a newline
/// closed, as `str::lines` does.
pub open spec fn strip_cr(l: Seq<u8>) -> Seq<u8> {
    if l.len() > 0 && l.last() == 13 {
        l.drop_last()
    } else {
        l
    }
}

/// The lines of `s`, as `str::lines` yields them: split at every newline,
/// with one trailing carriage return removed from each closed line; a final
/// fragment without a newline is a line of its own, and a trailing newline
/// opens no empty last line.
pub open spec fn split_lines(s: Seq<u8>) -> Seq<Seq<u8>>
    decreases s.len(),
{
    if s.len() == 0 {
        Seq::empty()
    } else {
        let i = first_byte(s, 10);
        if i < s.len() {
            seq![strip_cr(s.take(i as int))] + split_lines(s.skip(i + 1 as int))
        } else {
            seq![s]
        }
    }
}

/// The space-separated tokens of `s`, as `str::split(" ")` yields them:
/// every token kept, so consecutive, leading or trailing spaces give empty
/// tokens, and the empty input is one empty token.
pub open spec fn split_tokens(s: Seq<u8>) -> Seq<Seq<u8>>
    decreases s.len(),
{
    let i = first_byte(s, 32);
    if i < s.len() {
        seq![s.take(i as int)] + split_tokens(s.skip(i + 1 as int))
    } else {
        seq![s]
    }
}

/// The lines joined again with single newlines, the inverse of splitting a
/// body that had no carriage returns.
pub open spec fn join_lines(lines: Seq<Seq<u8>>) -> Seq<u8>
    decreases lines.len(),
{
    if lines.len() == 0 {
        Seq::empty()
    } else if lines.len() == 1 {
        lines[0]
    } else {
        lines[0] + seq![10u8] + join_lines(lines.drop_first())
    }
}

pub proof fn lemma_join_lines_push(lines: Seq<Seq<u8>>, l: Seq<u8>)
    ensures
        join_lines(lines.push(l)) == if lines.len() == 0 {
            l
        } else {
            join_lines(lines) + seq![10u8] + l
        },
    decreases lines.len(),
{
    if lines.len() == 0 {
        assert(lines.push(l)[0] == l);
    } else {
        lemma_join_lines_push(lines.drop_first(), l);
        assert(lines.push(l).drop_first() =~= lines.drop_first().push(l));
        if lines.len() == 1 {
            assert(join_lines(lines.push(l)) =~= join_lines(lines) + seq![10u8] + l);
        } else {
            assert(join_lines(lines.push(l)) =~= join_lines(lines) + seq![10u8] + l);
        }
    }
}

/// Copies `s[from..to]` into a fresh vector.
pub fn sub_vec(s: &[u8], from: usize, to: usize) -> (r: Vec<u8>)
    requires
        from <= to <= s@.len(),
    ensures
        r@ == s@.subrange(from as int, to as int),
{
    vstd::slice::slice_to_vec(vstd::slice::slice_subrange(s, from, to))
}

/// Splits `s` into its lines, executably.
pub fn split_lines_vec(s: &[u8]) -> (r: Vec<Vec<u8>>)
    ensures
        r.deep_view() == split_lines(s@),
{
    let n = s.len();
    let mut r: Vec<Vec<u8>> = Vec::new();
    let mut p: usize = 0;
    proof {
        assert(s@.skip(0) =~= s@);
        assert(r.deep_view() =~= Seq::<Seq<u8>>::empty());
        assert(r.deep_view() + split_lines(s@) =~= split_lines(s@));
    }
    while p < n
        invariant
            p <= n == s@.len(),
            split_lines(s@) == r.deep_view() + split_lines(s@.skip(p as int)),
        decreases n - p,
    {
        let ghost t = s@.skip(p as int);
        let ghost r_old = r.deep_view();
        let mut i: usize = p;
        while i < n && s[i] != 10
            invariant
                p <= i <= n <= s@.len(),
                forall|j: int| p <= j < i ==> s@[j] != 10,
            decreases n - i,
        {
            i = i + 1;
        }
        proof {
            assert(forall|j: int| 0 <= j < i - p ==> t[j] != 10);
            lemma_first_byte_is(t, 10, i - p);
        }
        if i < n {
            let end = if i > p && s[i - 1] == 13 {
                i - 1
            } else {
                i
            };
            let line = sub_vec(s, p, end);
            proof {
                assert(t.take(i - p) =~= s@.subrange(p as int, i as int));
                assert(strip_cr(t.take(i - p)) =~= s@.subrange(p as int, end as int));
                assert(t.skip(i - p + 1) =~= s@.skip(i + 1));
            }
            r.push(line);
            proof {
                assert(line.deep_view() =~= line@);
                assert(r.deep_view() =~= r_old.push(line@));
                assert(r.deep_view() + split_lines(s@.skip(i + 1)) =~= r_old + split_lines(t));
            }
            p = i + 1;
        } else {
            let line = sub_vec(s, p, n);
            proof {
                assert(t =~= s@.subrange(p as int, n as int));
            }
            r.push(line);
            proof {
                assert(line.deep_view() =~= line@);
                assert(r.deep_view() =~= r_old.push(line@));
                assert(s@.skip(n as int).len() == 0);
                assert(r.deep_view() + split_lines(s@.skip(n as int)) =~= r_old + split_lines(t));
            }
            p = n;
        }
    }
    proof {
        assert(s@.skip(p as int).len() == 0);
        assert(r.deep_view() + split_lines(s@.skip(p as int)) =~= r.deep_view());
    }
    r
}

/// Splits `s` at single spaces, executably.
pub fn split_tokens_vec(s: &[u8]) -> (r: Vec<Vec<u8>>)
    ensures
        r.deep_view() == split_tokens(s@),
{
    let n = s.len();
    let mut r: Vec<Vec<u8>> = Vec::new();
    let mut p: usize = 0;
    let mut done = false;
    proof {
        assert(s@.skip(0) =~= s@);
        assert(r.deep_view() =~= Seq::<Seq<u8>>::empty());
        assert(r.deep_view() + split_tokens(s@) =~= split_tokens(s@));
    }
    while !done
        invariant
            p <= n == s@.len(),
            !done ==> split_tokens(s@) == r.deep_view() + split_tokens(s@.skip(p as int)),
            done ==> split_tokens(s@) == r.deep_view(),
        decreases n - p + (if done { 0int } else { 1int }),
    {
        let ghost t = s@.skip(p as int);
        let ghost r_old = r.deep_view();
        let mut i: usize = p;
        while i < n && s[i] != 32
            invariant
                p <= i <= n <= s@.len(),
                forall|j: int| p <= j < i ==> s@[j] != 32,
            decreases n - i,
        {
            i = i + 1;
        }
        proof {
            assert(forall|j: int| 0 <= j < i - p ==> t[j] != 32);
            lemma_first_byte_is(t, 32, i - p);
            assert(t.take(i - p) =~= s@.subrange(p as int, i as int));
        }
        let token = sub_vec(s, p, i);
        r.push(token);
        proof {
            assert(token.deep_view() =~= token@);
            assert(r.deep_view() =~= r_old.push(token@));
        }
        if i < n {
            proof {
                assert(t.skip(i - p + 1) =~= s@.skip(i + 1));
                assert(r.deep_view() + split_tokens(s@.skip(i + 1)) =~= r_old + split_tokens(t));
            }
            p = i + 1;
        } else {
            proof {
                assert(t =~= s@.subrange(p as int, n as int));
                assert(r.deep_view() =~= r_old + split_tokens(t));
            }
            done = true;
        }
    }
    r
}

/// Appends every byte of `src` to `dst`.
pub fn push_all(dst: &mut Vec<u8>, src: &Vec<u8>)
    ensures
        final(dst)@ == old(dst)@ + src@,
{
    let mut j: usize = 0;
    while j < src.len()
        invariant
            j <= src@.len(),
            dst@ == old(dst)@ + src@.take(j as int),
        decreases src@.len() - j,
    {
        dst.push(src[j]);
        j = j + 1;
        proof {
            assert(old(dst)@ + src@.take(j as int) =~= (old(dst)@ + src@.take(j - 1)).push(
                src@[j - 1],
            ));
        }
    }
    proof {
        assert(src@.take(src@.len() as int) =~= src@);
    }
}

/// Joins `lines[from..]` with newlines, executably.
pub fn join_lines_vec(lines: &Vec<Vec<u8>>, from: usize) -> (r: Vec<u8>)
    requires
        from <= lines@.len(),
    ensures
        r@ == join_lines(lines.deep_view().skip(from as int)),
{
    let n = lines.len();
    let mut out: Vec<u8> = Vec::new();
    let mut i: usize = from;
    while i < n
        invariant
            from <= i <= n == lines@.len(),
            out@ == join_lines(lines.deep_view().subrange(from as int, i as int)),
        decreases n - i,
    {
        let ghost prefix = lines.deep_view().subrange(from as int, i as int);
        if i > from {
            out.push(10);
        }
        push_all(&mut out, &lines[i]);
        i = i + 1;
        proof {
            assert(lines.deep_view().subrange(from as int, i as int) =~= prefix.push(
                lines.deep_view()[i - 1],
            ));
            lemma_join_lines_push(prefix, lines.deep_view()[i - 1]);
        }
    }
    proof {
        assert(lines.deep_view().subrange(from as int, n as int) =~= lines.deep_view().skip(
            from as int,
        ));
    }
    out
}

} // verus!
