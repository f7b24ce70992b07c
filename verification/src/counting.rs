//! The counting operation itself.
//!
//! [`count`] reads the input as lines, decodes each as UTF-8, lists every
//! unit the chosen mode finds, and tallies how often each unit occurs. The
//! operation is all or nothing: input with a line that is not valid UTF-8
//! yields an error and no table.

use crate::decode::{decode_line, DecodingError};
use crate::lines::{lemma_first_newline_spec, split_into_lines, split_lines, strip_carriage_return};
use crate::options::CountOption;
use crate::table::{bump, FrequencyTable};
use crate::tokens::{lemma_line_units_len, line_units, units_of_line};
use vstd::prelude::*;
use vstd::utf8::{
    decode_utf8, is_char_boundary_iff_not_is_continuation_byte, is_leading_byte_width_1,
    length_of_first_scalar, pop_first_scalar, valid_first_scalar, valid_utf8, valid_utf8_concat,
    valid_utf8_split,
};

verus! {

/// Every line of a split input is a valid UTF-8 encoding.
pub open spec fn all_lines_valid(ls: Seq<Seq<u8>>) -> bool {
    forall|i: int| 0 <= i < ls.len() ==> valid_utf8(ls[i])
}

/// The characters of each line, in order.
pub open spec fn decoded_lines(ls: Seq<Seq<u8>>) -> Seq<Seq<char>> {
    ls.map_values(|l: Seq<u8>| decode_utf8(l))
}

/// Every unit the given decoded lines contribute, line by line.
pub open spec fn units_of_lines(ls: Seq<Seq<char>>, option: CountOption) -> Seq<Seq<char>>
    decreases ls.len(),
{
    if ls.len() == 0 {
        seq![]
    } else {
        line_units(ls.first(), option) + units_of_lines(ls.drop_first(), option)
    }
}

/// Every unit of the raw input under the given mode.
pub open spec fn input_units(bytes: Seq<u8>, option: CountOption) -> Seq<Seq<char>> {
    units_of_lines(decoded_lines(split_lines(bytes)), option)
}

/// The frequency of each unit: a unit is a key exactly when it occurs, and is
/// mapped to its number of occurrences.
pub open spec fn tally(units: Seq<Seq<char>>) -> Map<Seq<char>, nat> {
    Map::new(|u: Seq<char>| units.contains(u), |u: Seq<char>| units.to_multiset().count(u))
}

/// One more unit raises its tally by one, or enters it with tally one.
pub proof fn lemma_tally_push(units: Seq<Seq<char>>, u: Seq<char>)
    ensures
        tally(units.push(u)) == bump(tally(units), u),
{
    broadcast use vstd::seq_lib::group_to_multiset_ensures;

    let p = units.push(u);
    assert forall|x: Seq<char>| #[trigger] p.contains(x) implies units.contains(x) || x == u by {
        let i = choose|i: int| 0 <= i < p.len() && p[i] == x;
        if i < units.len() {
            assert(units[i] == x);
        }
    }
    assert forall|x: Seq<char>| units.contains(x) implies #[trigger] p.contains(x) by {
        let i = choose|i: int| 0 <= i < units.len() && units[i] == x;
        assert(p[i] == x);
    }
    assert(p[units.len() as int] == u);
    assert(p.contains(u));
    assert(p.to_multiset() =~= units.to_multiset().insert(u));
    assert(tally(p) =~= bump(tally(units), u));
}

/// A single decoded line contributes exactly its own units.
pub proof fn lemma_units_of_lines_singleton(l: Seq<char>, option: CountOption)
    ensures
        units_of_lines(seq![l], option) == line_units(l, option),
{
    assert(seq![l].first() == l);
    assert(seq![l].drop_first() =~= Seq::<Seq<char>>::empty());
    assert(units_of_lines(seq![l].drop_first(), option) == Seq::<Seq<char>>::empty());
    assert(line_units(l, option) + Seq::<Seq<char>>::empty() =~~= line_units(l, option));
}

/// Units can be listed by splitting the lines anywhere: those of the first
/// `k` lines, then those of the rest.
pub proof fn lemma_units_of_lines_split(ls: Seq<Seq<char>>, option: CountOption, k: int)
    requires
        0 <= k <= ls.len(),
    ensures
        units_of_lines(ls, option) == units_of_lines(ls.subrange(0, k), option) + units_of_lines(
            ls.subrange(k, ls.len() as int),
            option,
        ),
    decreases k,
{
    if k == 0 {
        assert(ls.subrange(0, 0) =~= Seq::<Seq<char>>::empty());
        assert(ls.subrange(0, ls.len() as int) =~= ls);
        assert(Seq::<Seq<char>>::empty() + units_of_lines(ls, option) =~~= units_of_lines(
            ls,
            option,
        ));
    } else {
        let rest = ls.drop_first();
        lemma_units_of_lines_split(rest, option, k - 1);
        let head = ls.subrange(0, k);
        assert(head.first() == ls.first());
        assert(head.drop_first() =~= rest.subrange(0, k - 1));
        assert(rest.subrange(k - 1, rest.len() as int) =~= ls.subrange(k, ls.len() as int));
        assert((line_units(ls.first(), option) + units_of_lines(rest.subrange(0, k - 1), option))
            + units_of_lines(ls.subrange(k, ls.len() as int), option) =~~= line_units(
            ls.first(),
            option,
        ) + (units_of_lines(rest.subrange(0, k - 1), option) + units_of_lines(
            ls.subrange(k, ls.len() as int),
            option,
        )));
    }
}

/// Taking one more line appends exactly that line's units.
pub proof fn lemma_units_of_lines_snoc(ls: Seq<Seq<char>>, option: CountOption, k: int)
    requires
        0 <= k < ls.len(),
    ensures
        units_of_lines(ls.subrange(0, k + 1), option) == units_of_lines(ls.subrange(0, k), option)
            + line_units(ls[k], option),
{
    let a = ls.subrange(0, k + 1);
    lemma_units_of_lines_split(a, option, k);
    assert(a.subrange(0, k) =~= ls.subrange(0, k));
    assert(a.subrange(k, a.len() as int) =~= seq![ls[k]]);
    lemma_units_of_lines_singleton(ls[k], option);
}

/// A valid UTF-8 encoding has at least one byte per character.
pub proof fn lemma_decode_utf8_len(bytes: Seq<u8>)
    requires
        valid_utf8(bytes),
    ensures
        decode_utf8(bytes).len() <= bytes.len(),
    decreases bytes.len(),
{
    if bytes.len() == 0 {
    } else {
        let rest = pop_first_scalar(bytes);
        assert(length_of_first_scalar(bytes) >= 1);
        assert(rest.len() <= bytes.len() - 1);
        lemma_decode_utf8_len(rest);
    }
}

/// An input yields at most one unit per byte: characters and words take at
/// least a byte each, and every line takes at least one byte of input, its
/// terminator included.
pub proof fn lemma_input_units_len(bytes: Seq<u8>, option: CountOption)
    requires
        all_lines_valid(split_lines(bytes)),
    ensures
        input_units(bytes, option).len() <= bytes.len(),
    decreases bytes.len(),
{
    lemma_first_newline_spec(bytes);
    if bytes.len() == 0 {
        assert(decoded_lines(split_lines(bytes)) =~= Seq::<Seq<char>>::empty());
    } else {
        let i = crate::lines::first_newline(bytes);
        let dls = decoded_lines(split_lines(bytes));
        if i == bytes.len() {
            assert(split_lines(bytes)[0] == bytes);
            assert(valid_utf8(bytes));
            assert(dls =~= seq![decode_utf8(bytes)]);
            lemma_units_of_lines_singleton(decode_utf8(bytes), option);
            lemma_decode_utf8_len(bytes);
            lemma_line_units_len(decode_utf8(bytes), option);
        } else {
            let head = strip_carriage_return(bytes.subrange(0, i));
            let rest = bytes.subrange(i + 1, bytes.len() as int);
            assert(split_lines(bytes) == seq![head] + split_lines(rest));
            assert(split_lines(bytes)[0] == head);
            assert(valid_utf8(head));
            assert(all_lines_valid(split_lines(rest))) by {
                assert forall|j: int| 0 <= j < split_lines(rest).len() implies valid_utf8(
                    #[trigger] split_lines(rest)[j],
                ) by {
                    assert(split_lines(bytes)[j + 1] == split_lines(rest)[j]);
                }
            }
            lemma_input_units_len(rest, option);
            assert(dls.first() == decode_utf8(head));
            assert(dls.drop_first() =~= decoded_lines(split_lines(rest)));
            lemma_decode_utf8_len(head);
            lemma_line_units_len(decode_utf8(head), option);
            assert(head.len() <= i);
            assert(line_units(decode_utf8(head), option).len() <= i + 1);
        }
    }
}

/// A single byte in the ASCII range is valid UTF-8 on its own.
proof fn lemma_single_ascii_valid(b: u8)
    requires
        b <= 0x7f,
    ensures
        valid_utf8(seq![b]),
{
    let s = seq![b];
    assert(is_leading_byte_width_1(s[0]));
    assert(b & 0x7f == b) by (bit_vector)
        requires
            b <= 0x7f,
    ;
    assert(valid_first_scalar(s));
    assert(pop_first_scalar(s) =~= Seq::<u8>::empty());
    assert(valid_utf8(Seq::<u8>::empty()));
}

/// Stripping a trailing carriage return neither makes nor mends a valid
/// UTF-8 line.
proof fn lemma_strip_carriage_return_valid(seg: Seq<u8>)
    ensures
        valid_utf8(seg) <==> valid_utf8(strip_carriage_return(seg)),
{
    if seg.len() > 0 && seg.last() == 13 {
        let head = seg.drop_last();
        assert(head =~= seg.subrange(0, seg.len() - 1));
        if valid_utf8(seg) {
            is_char_boundary_iff_not_is_continuation_byte(seg, seg.len() - 1);
            valid_utf8_split(seg, seg.len() - 1);
        }
        if valid_utf8(head) {
            lemma_single_ascii_valid(13);
            valid_utf8_concat(head, seq![13u8]);
            assert(head + seq![13u8] =~= seg);
        }
    }
}

/// The input is valid UTF-8 exactly when every one of its lines is: the line
/// terminators are single ASCII bytes and never split a character.
pub proof fn lemma_all_lines_valid_iff(bytes: Seq<u8>)
    ensures
        all_lines_valid(split_lines(bytes)) <==> valid_utf8(bytes),
    decreases bytes.len(),
{
    lemma_first_newline_spec(bytes);
    if bytes.len() == 0 {
        assert(valid_utf8(bytes));
    } else {
        let i = crate::lines::first_newline(bytes);
        if i == bytes.len() {
            assert(split_lines(bytes) == seq![bytes]);
            assert(split_lines(bytes)[0] == bytes);
            if valid_utf8(bytes) {
                assert(all_lines_valid(split_lines(bytes)));
            }
        } else {
            let seg = bytes.subrange(0, i);
            let head = strip_carriage_return(seg);
            let rest = bytes.subrange(i + 1, bytes.len() as int);
            assert(split_lines(bytes) == seq![head] + split_lines(rest));
            assert(split_lines(bytes)[0] == head);
            lemma_all_lines_valid_iff(rest);
            lemma_strip_carriage_return_valid(seg);
            assert(all_lines_valid(split_lines(rest)) <==> (forall|j: int|
                1 <= j < split_lines(bytes).len() ==> valid_utf8(#[trigger] split_lines(
                    bytes,
                )[j]))) by {
                assert(forall|j: int|
                    0 <= j < split_lines(rest).len() ==> split_lines(bytes)[j + 1]
                        == #[trigger] split_lines(rest)[j]);
                assert(forall|j: int|
                    1 <= j < split_lines(bytes).len() ==> #[trigger] split_lines(bytes)[j]
                        == split_lines(rest)[j - 1]);
            }
            let tail = bytes.subrange(i as int, bytes.len() as int);
            if valid_utf8(bytes) {
                is_char_boundary_iff_not_is_continuation_byte(bytes, i);
                valid_utf8_split(bytes, i);
                assert(valid_utf8(seg));
                assert(valid_utf8(tail));
                assert(tail[0] == 10);
                assert(pop_first_scalar(tail) =~= rest);
                assert(valid_utf8(rest));
            }
            if valid_utf8(seg) && valid_utf8(rest) {
                lemma_single_ascii_valid(10);
                valid_utf8_concat(seq![10u8], rest);
                valid_utf8_concat(seg, seq![10u8] + rest);
                assert(seg + (seq![10u8] + rest) =~= bytes);
            }
        }
    }
}

/// For empty input, every mode yields the empty table: no line, no unit, and
/// a tally with no key.
pub proof fn lemma_empty_input(option: CountOption)
    ensures
        input_units(Seq::<u8>::empty(), option) == Seq::<Seq<char>>::empty(),
        tally(Seq::<Seq<char>>::empty()) == Map::<Seq<char>, nat>::empty(),
{
    assert(decoded_lines(split_lines(Seq::<u8>::empty())) =~= Seq::<Seq<char>>::empty());
    assert(tally(Seq::<Seq<char>>::empty()) =~= Map::<Seq<char>, nat>::empty());
}

/// Counts how often each unit of the chosen kind occurs in `input`.
///
/// The input is split into lines, each line is decoded as UTF-8, and every
/// unit the mode finds is tallied. The call returns `Ok` exactly when every
/// line is valid UTF-8; the table then maps each occurring unit to its
/// number of occurrences, and its `total` is the number of units found, so
/// no unit is dropped or double-counted. On any line that is not valid
/// UTF-8 the whole call fails with [`DecodingError`] and returns no table.
pub fn count(input: &[u8], option: CountOption) -> (r: Result<FrequencyTable, DecodingError>)
    ensures
        r is Ok <==> valid_utf8(input@),
        r is Ok <==> all_lines_valid(split_lines(input@)),
        r matches Ok(t) ==> t.wf() && t@ == tally(input_units(input@, option)) && t.total
            == input_units(input@, option).len(),
{
    proof {
        lemma_all_lines_valid_iff(input@);
    }
    let n_bytes = input.len();
    let segments: Vec<Vec<u8>> = split_into_lines(input);
    let ghost segs = segments.deep_view();
    let mut lines: Vec<String> = Vec::new();
    let mut rest = segments;
    while rest.len() > 0
        invariant
            segs == split_lines(input@),
            lines@.len() + rest@.len() == segs.len(),
            rest.deep_view() == segs.subrange(lines@.len() as int, segs.len() as int),
            forall|j: int| 0 <= j < lines@.len() ==> valid_utf8(#[trigger] segs[j]),
            forall|j: int| 0 <= j < lines@.len() ==> (#[trigger] lines@[j])@ == decode_utf8(
                segs[j],
            ),
        decreases rest@.len(),
    {
        let ghost k = lines@.len() as int;
        let ghost prev_rest = rest.deep_view();
        let ghost prev_rest0 = rest@;
        let seg = rest.remove(0);
        proof {
            assert(prev_rest[0] == seg@);
            assert(seg@ == segs[k]);
            prev_rest0.remove_ensures(0);
            assert forall|j: int| 0 <= j < rest@.len() implies #[trigger] rest.deep_view()[j]
                == segs[k + 1 + j] by {
                assert(rest@[j] == prev_rest0[j + 1]);
                assert(rest.deep_view()[j] == rest@[j].deep_view());
                assert(prev_rest[j + 1] == prev_rest0[j + 1].deep_view());
                assert(prev_rest[j + 1] == segs[k + 1 + j]);
            }
            assert(rest.deep_view() =~~= segs.subrange(k + 1, segs.len() as int));
        }
        match decode_line(seg) {
            Ok(s) => {
                lines.push(s);
            },
            Err(_) => {
                proof {
                    assert(!valid_utf8(segs[k]));
                    assert(!all_lines_valid(split_lines(input@)));
                    lemma_all_lines_valid_iff(input@);
                }
                return Err(DecodingError);
            },
        }
    }
    let ghost dls = decoded_lines(segs);
    proof {
        assert(lines@.len() == segs.len());
        assert(lines.deep_view() =~~= dls);
        lemma_input_units_len(input@, option);
    }
    let ghost all_units = input_units(input@, option);
    let mut t = FrequencyTable::new();
    let nl = lines.len();
    let mut li: usize = 0;
    proof {
        assert(dls.subrange(0, 0) =~= Seq::<Seq<char>>::empty());
        assert(tally(Seq::<Seq<char>>::empty()) =~= Map::<Seq<char>, nat>::empty());
    }
    while li < nl
        invariant
            li <= nl,
            nl == lines@.len(),
            lines.deep_view() == dls,
            all_units == units_of_lines(dls, option),
            all_units == input_units(input@, option),
            all_units.len() <= n_bytes,
            t.wf(),
            t@ == tally(units_of_lines(dls.subrange(0, li as int), option)),
            t.total == units_of_lines(dls.subrange(0, li as int), option).len(),
        decreases nl - li,
    {
        let ghost pre = units_of_lines(dls.subrange(0, li as int), option);
        let line = &lines[li];
        let units: Vec<String> = units_of_line(line.as_str(), option);
        let ghost lu = line_units(dls[li as int], option);
        proof {
            assert(line@ == dls[li as int]);
            assert(units.deep_view() == lu);
            assert(pre + lu.subrange(0, 0) =~~= pre);
        }
        let nu = units.len();
        let mut uj: usize = 0;
        while uj < nu
            invariant
                uj <= nu,
                nu == units@.len(),
                units.deep_view() == lu,
                li < dls.len(),
                pre == units_of_lines(dls.subrange(0, li as int), option),
                lu == line_units(dls[li as int], option),
                all_units == units_of_lines(dls, option),
                all_units.len() <= n_bytes,
                t.wf(),
                t@ == tally(pre + lu.subrange(0, uj as int)),
                t.total == pre.len() + uj,
            decreases nu - uj,
        {
            let u = units[uj].clone();
            proof {
                lemma_units_of_lines_split(dls, option, li + 1);
                lemma_units_of_lines_snoc(dls, option, li as int);
                assert(all_units.len() >= pre.len() + lu.len());
                assert(t.total < usize::MAX);
            }
            let ghost before = pre + lu.subrange(0, uj as int);
            t.increment(u);
            proof {
                lemma_tally_push(before, u@);
                assert(u@ == lu[uj as int]);
                assert(pre + lu.subrange(0, uj + 1) =~~= before.push(lu[uj as int]));
            }
            uj = uj + 1;
        }
        proof {
            assert(lu.subrange(0, nu as int) =~= lu);
            lemma_units_of_lines_snoc(dls, option, li as int);
            assert(pre + lu == units_of_lines(dls.subrange(0, li + 1), option));
        }
        li = li + 1;
    }
    proof {
        assert(dls.subrange(0, nl as int) =~= dls);
    }
    Ok(t)
}

} // verus!
