//! Splitting raw input bytes into lines.
//!
//! A line ends at a line-feed byte (10); a carriage return (13) that stands
//! directly before the line feed belongs to the terminator and is stripped.
//! Input after the last line feed forms a final line only when it is not
//! empty, so a trailing line feed adds no line.

use vstd::prelude::*;

verus! {

/// Index of the first line-feed byte in `bytes`, or `bytes.len()` when there
/// is none.
pub open spec fn first_newline(bytes: Seq<u8>) -> int
    decreases bytes.len(),
{
    if bytes.len() == 0 {
        0
    } else if bytes[0] == 10 {
        0
    } else {
        1 + first_newline(bytes.drop_first())
    }
}

/// A line that ends with a carriage return loses it when a line feed followed;
/// this is applied only to lines that a line feed terminated.
pub open spec fn strip_carriage_return(line: Seq<u8>) -> Seq<u8> {
    if line.len() > 0 && line.last() == 13 {
        line.drop_last()
    } else {
        line
    }
}

/// The lines of `bytes`: the segments between line feeds, each stripped of a
/// carriage return that stood before its line feed. A final segment with no
/// line feed keeps a trailing carriage return, and counts as a line only when
/// it is not empty.
pub open spec fn split_lines(bytes: Seq<u8>) -> Seq<Seq<u8>>
    decreases bytes.len(),
    via split_lines_decreases
{
    if bytes.len() == 0 {
        seq![]
    } else {
        let i = first_newline(bytes);
        if i == bytes.len() {
            seq![bytes]
        } else {
            seq![strip_carriage_return(bytes.subrange(0, i))] + split_lines(
                bytes.subrange(i + 1, bytes.len() as int),
            )
        }
    }
}

#[via_fn]
proof fn split_lines_decreases(bytes: Seq<u8>) {
    lemma_first_newline_spec(bytes);
}

/// `first_newline` points at the first line feed: no byte before it is one,
/// and the byte there is one unless no line feed occurs at all.
pub proof fn lemma_first_newline_spec(bytes: Seq<u8>)
    ensures
        0 <= first_newline(bytes) <= bytes.len(),
        first_newline(bytes) < bytes.len() ==> bytes[first_newline(bytes)] == 10,
        forall|j: int| 0 <= j < first_newline(bytes) ==> bytes[j] != 10,
    decreases bytes.len(),
{
    if bytes.len() == 0 {
    } else if bytes[0] == 10 {
    } else {
        let rest = bytes.drop_first();
        lemma_first_newline_spec(rest);
        assert forall|j: int| 0 <= j < first_newline(bytes) implies bytes[j] != 10 by {
            if j > 0 {
                assert(bytes[j] == rest[j - 1]);
            }
        }
    }
}

/// Any index with a line feed and none before it is `first_newline`; an input
/// with no line feed at all has `first_newline` at its end.
pub proof fn lemma_first_newline_at(bytes: Seq<u8>, k: int)
    requires
        0 <= k <= bytes.len(),
        forall|j: int| 0 <= j < k ==> bytes[j] != 10,
        k < bytes.len() ==> bytes[k] == 10,
    ensures
        first_newline(bytes) == k,
    decreases bytes.len(),
{
    if bytes.len() == 0 {
    } else if bytes[0] == 10 {
        assert(k == 0);
    } else {
        assert(k >= 1);
        let rest = bytes.drop_first();
        assert(forall|j: int| 0 <= j < k - 1 ==> rest[j] != 10);
        lemma_first_newline_at(rest, k - 1);
    }
}

/// Unfolds `split_lines` at a leading line-free segment followed by a line
/// feed: that segment, stripped, is the first line, and the rest is split on
/// its own.
pub proof fn lemma_split_lines_step(cur: Seq<u8>, rest: Seq<u8>)
    requires
        forall|j: int| 0 <= j < cur.len() ==> cur[j] != 10,
    ensures
        split_lines(cur + seq![10u8] + rest) == seq![strip_carriage_return(cur)] + split_lines(
            rest,
        ),
{
    let whole = cur + seq![10u8] + rest;
    assert(whole.len() == cur.len() + 1 + rest.len());
    assert(forall|j: int| 0 <= j < cur.len() ==> whole[j] != 10);
    assert(whole[cur.len() as int] == 10);
    lemma_first_newline_at(whole, cur.len() as int);
    assert(whole.subrange(0, cur.len() as int) =~= cur);
    assert(whole.subrange(cur.len() as int + 1, whole.len() as int) =~= rest);
}

/// Splits `split_lines` of a line-free input: it is the one line, or no line
/// at all when the input is empty.
pub proof fn lemma_split_lines_no_newline(cur: Seq<u8>)
    requires
        forall|j: int| 0 <= j < cur.len() ==> cur[j] != 10,
    ensures
        cur.len() == 0 ==> split_lines(cur) == Seq::<Seq<u8>>::empty(),
        cur.len() > 0 ==> split_lines(cur) == seq![cur],
{
    lemma_first_newline_at(cur, cur.len() as int);
    if cur.len() == 0 {
        assert(split_lines(cur) =~= Seq::<Seq<u8>>::empty());
    }
}

/// Splits `input` into its lines, exactly as [`split_lines`] describes them.
pub fn split_into_lines(input: &[u8]) -> (r: Vec<Vec<u8>>)
    ensures
        r.deep_view() == split_lines(input@),
{
    let n = input.len();
    let mut out: Vec<Vec<u8>> = Vec::new();
    let mut cur: Vec<u8> = Vec::new();
    let mut i: usize = 0;
    proof {
        assert(cur@ + input@.subrange(0, n as int) =~= input@);
        assert(out.deep_view() + split_lines(input@) =~~= split_lines(input@));
    }
    while i < n
        invariant
            i <= n,
            n == input@.len(),
            forall|j: int| 0 <= j < cur@.len() ==> cur@[j] != 10,
            split_lines(input@) == out.deep_view() + split_lines(
                cur@ + input@.subrange(i as int, n as int),
            ),
        decreases n - i,
    {
        let ghost prev_out = out.deep_view();
        let ghost prev_cur = cur@;
        let ghost suffix = input@.subrange(i + 1, n as int);
        let b = input[i];
        proof {
            assert(prev_cur + input@.subrange(i as int, n as int) =~= (prev_cur + seq![b])
                + suffix);
        }
        if b == 10 {
            if cur.len() > 0 && cur[cur.len() - 1] == 13 {
                cur.pop();
            }
            proof {
                assert(cur@ =~= strip_carriage_return(prev_cur));
                lemma_split_lines_step(prev_cur, suffix);
                assert((prev_cur + seq![b]) + suffix =~= prev_cur + seq![10u8] + suffix);
            }
            let ghost stripped = cur@;
            out.push(cur);
            cur = Vec::new();
            proof {
                assert(out.deep_view() =~~= prev_out.push(stripped));
                assert(cur@ + suffix =~= suffix);
                assert(prev_out + (seq![stripped] + split_lines(suffix)) =~~= prev_out.push(
                    stripped,
                ) + split_lines(suffix));
            }
        } else {
            cur.push(b);
            proof {
                assert(cur@ + suffix =~= (prev_cur + seq![b]) + suffix);
            }
        }
        i = i + 1;
    }
    proof {
        assert(cur@ + input@.subrange(n as int, n as int) =~= cur@);
        lemma_split_lines_no_newline(cur@);
    }
    if cur.len() > 0 {
        let ghost prev_out = out.deep_view();
        let ghost last = cur@;
        out.push(cur);
        proof {
            assert(out.deep_view() =~~= prev_out.push(last));
            assert(prev_out + seq![last] =~~= prev_out.push(last));
        }
        out
    } else {
        proof {
            assert(out.deep_view() + Seq::<Seq<u8>>::empty() =~~= out.deep_view());
        }
        out
    }
}

} // verus!
