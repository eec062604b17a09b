//! Line-oriented decimal text: rendering a sequence of u64 values one per
//! newline-terminated line, and the two parsing strategies of the text
//! benchmark — split-on-newline with failures discarded, and the strict
//! "number then newline, repeated to exhaustion" sequencing grammar.

use vstd::prelude::*;
use crate::decimal::{digits_value, is_digit, lemma_digits_shape,
    lemma_digits_value_non_negative, parse_u64_range, push_decimal, spec_digits, spec_parse_u64};
use crate::rng::rand_u64;

verus! {

/// The text blob holding the values one per line, each line the decimal
/// digits of the value followed by one newline byte.
pub open spec fn spec_render_lines(nums: Seq<u64>) -> Seq<u8>
    decreases nums.len(),
{
    if nums.len() == 0 {
        Seq::empty()
    } else {
        spec_digits(nums[0] as nat) + seq![10u8] + spec_render_lines(nums.drop_first())
    }
}

/// Appending one value appends its rendered line.
proof fn lemma_render_snoc(nums: Seq<u64>, x: u64)
    ensures
        spec_render_lines(nums.push(x)) == spec_render_lines(nums) + spec_digits(x as nat)
            + seq![10u8],
    decreases nums.len(),
{
    if nums.len() == 0 {
        reveal_with_fuel(spec_render_lines, 2);
        assert(nums.push(x)[0] == x);
        assert(nums.push(x).drop_first() =~= Seq::<u64>::empty());
        assert(spec_render_lines(nums.push(x)) =~= spec_render_lines(nums) + spec_digits(x as nat)
            + seq![10u8]);
    } else {
        assert(nums.push(x)[0] == nums[0]);
        assert(nums.push(x).drop_first() =~= nums.drop_first().push(x));
        lemma_render_snoc(nums.drop_first(), x);
        assert(spec_render_lines(nums.push(x)) =~= spec_render_lines(nums) + spec_digits(x as nat)
            + seq![10u8]);
    }
}

/// Renders the values one per newline-terminated decimal line.
pub fn render_lines(nums: &Vec<u64>) -> (out: Vec<u8>)
    ensures
        out@ == spec_render_lines(nums@),
{
    let mut out: Vec<u8> = Vec::new();
    let mut i: usize = 0;
    while i < nums.len()
        invariant
            i <= nums@.len(),
            out@ == spec_render_lines(nums@.take(i as int)),
        decreases nums@.len() - i,
    {
        proof {
            assert(nums@.take(i + 1) =~= nums@.take(i as int).push(nums@[i as int]));
            lemma_render_snoc(nums@.take(i as int), nums@[i as int]);
        }
        let ghost prev = out@;
        push_decimal(&mut out, nums[i]);
        out.push(10);
        proof {
            assert(out@ =~= prev + spec_digits(nums@[i as int] as nat) + seq![10u8]);
        }
        i = i + 1;
    }
    proof {
        assert(nums@.take(nums@.len() as int) =~= nums@);
    }
    out
}

/// Generates `n` random u64 values together with the text blob holding
/// them, one decimal number per newline-terminated line.
pub fn gen_lines(n: usize) -> (r: (Vec<u64>, Vec<u8>))
    ensures
        r.0@.len() == n,
        r.1@ == spec_render_lines(r.0@),
{
    let mut nums: Vec<u64> = Vec::new();
    let mut i: usize = 0;
    while i < n
        invariant
            i <= n,
            nums@.len() == i,
        decreases n - i,
    {
        nums.push(rand_u64());
        i = i + 1;
    }
    let blob = render_lines(&nums);
    (nums, blob)
}

/// Index of the first newline byte, or the length if none occurs.
pub open spec fn first_nl(s: Seq<u8>) -> int
    decreases s.len(),
{
    if s.len() == 0 {
        0
    } else if s[0] == 10 {
        0
    } else {
        1 + first_nl(s.drop_first())
    }
}

/// `first_nl` is the unique index with no newline before it that is either
/// a newline or the end.
proof fn lemma_first_nl_is(s: Seq<u8>, i: int)
    requires
        0 <= i <= s.len(),
        forall|k: int| 0 <= k < i ==> s[k] != 10,
        i < s.len() ==> s[i] == 10,
    ensures
        first_nl(s) == i,
    decreases s.len(),
{
    if s.len() == 0 {
    } else if s[0] == 10 {
        assert(i == 0);
    } else {
        assert(i != 0);
        assert forall|k: int| 0 <= k < i - 1 implies s.drop_first()[k] != 10 by {
            assert(s.drop_first()[k] == s[k + 1]);
        };
        if i - 1 < s.len() - 1 {
            assert(s.drop_first()[i - 1] == s[i]);
        }
        lemma_first_nl_is(s.drop_first(), i - 1);
    }
}

/// The fragments of `s` split on newline bytes; a trailing newline yields a
/// final empty fragment, and the empty blob is one empty fragment.
pub open spec fn spec_split(s: Seq<u8>) -> Seq<Seq<u8>>
    decreases s.len(),
{
    let i = first_nl(s);
    if 0 <= i && i < s.len() {
        seq![s.take(i)] + spec_split(s.skip(i + 1))
    } else {
        seq![s]
    }
}

/// The values of the fragments that parse as u64, in order.
pub open spec fn spec_parse_fragments(frags: Seq<Seq<u8>>) -> Seq<u64>
    decreases frags.len(),
{
    if frags.len() == 0 {
        Seq::empty()
    } else {
        match spec_parse_u64(frags[0]) {
            Some(v) => seq![v] + spec_parse_fragments(frags.drop_first()),
            None => spec_parse_fragments(frags.drop_first()),
        }
    }
}

/// What the split strategy yields: split the blob on newline, parse each
/// fragment, discard the failures.
pub open spec fn spec_split_parse(s: Seq<u8>) -> Seq<u64> {
    spec_parse_fragments(spec_split(s))
}

/// The split strategy: split on newline, parse each fragment as u64,
/// collect the successes and discard the failures (such as the empty
/// fragment after a trailing newline).
pub fn split_parse(blob: &Vec<u8>) -> (r: Vec<u64>)
    ensures
        r@ == spec_split_parse(blob@),
{
    let n = blob.len();
    let mut r: Vec<u64> = Vec::new();
    let mut pos: usize = 0;
    let mut done = false;
    proof {
        assert(blob@.skip(0) =~= blob@);
        assert(Seq::<u64>::empty() + spec_parse_fragments(spec_split(blob@)) =~= spec_parse_fragments(
            spec_split(blob@),
        ));
    }
    while !done
        invariant
            pos <= n == blob@.len(),
            done ==> r@ == spec_split_parse(blob@),
            !done ==> spec_split_parse(blob@) == r@ + spec_parse_fragments(
                spec_split(blob@.skip(pos as int)),
            ),
        decreases n - pos + (if done { 0int } else { 1int }),
    {
        let mut j: usize = pos;
        while j < n && blob[j] != 10
            invariant
                pos <= j <= n == blob@.len(),
                forall|k: int| pos <= k < j ==> blob@[k] != 10,
            decreases n - j,
        {
            j = j + 1;
        }
        let ghost t = blob@.skip(pos as int);
        proof {
            assert forall|k: int| 0 <= k < j - pos implies t[k] != 10 by {
                assert(t[k] == blob@[k + pos]);
            };
            if j < n {
                assert(t[j - pos] == blob@[j as int]);
            }
            lemma_first_nl_is(t, j as int - pos as int);
            assert(t.take(j as int - pos as int) =~= blob@.subrange(pos as int, j as int));
        }
        let ghost prev = r@;
        let parsed = parse_u64_range(blob, pos, j);
        match parsed {
            Some(v) => { r.push(v); },
            None => {},
        }
        if j == n {
            proof {
                reveal_with_fuel(spec_parse_fragments, 2);
                assert(t =~= blob@.subrange(pos as int, n as int));
                assert(spec_split(t) == seq![t]);
                assert(seq![t][0] == t);
                assert(seq![t].drop_first() =~= Seq::<Seq<u8>>::empty());
                match spec_parse_u64(t) {
                    Some(v) => {
                        assert(spec_parse_fragments(seq![t]) == seq![v] + Seq::<u64>::empty());
                        assert(r@ =~= prev + (seq![v] + Seq::<u64>::empty()));
                    },
                    None => {
                        assert(spec_parse_fragments(seq![t]) == Seq::<u64>::empty());
                        assert(r@ =~= prev + Seq::<u64>::empty());
                    },
                }
            }
            done = true;
        } else {
            proof {
                assert(t.skip(j as int - pos as int + 1) =~= blob@.skip(j + 1));
                assert(spec_split(t) == seq![t.take(j as int - pos as int)] + spec_split(
                    blob@.skip(j + 1),
                ));
                let frags = spec_split(t);
                assert(frags[0] == t.take(j as int - pos as int));
                assert(frags.drop_first() =~= spec_split(blob@.skip(j + 1)));
                match spec_parse_u64(t.take(j as int - pos as int)) {
                    Some(v) => {
                        assert(r@ =~= prev + seq![v]);
                        assert(prev + (seq![v] + spec_parse_fragments(
                            spec_split(blob@.skip(j + 1)),
                        )) =~= r@ + spec_parse_fragments(spec_split(blob@.skip(j + 1))));
                    },
                    None => {},
                }
            }
            pos = j + 1;
        }
    }
    r
}

/// Length of the leading run of digit bytes.
pub open spec fn digit_run(s: Seq<u8>) -> int
    decreases s.len(),
{
    if s.len() == 0 {
        0
    } else if !is_digit(s[0]) {
        0
    } else {
        1 + digit_run(s.drop_first())
    }
}

/// `digit_run` is the unique index with only digits before it that is
/// either a non-digit or the end.
proof fn lemma_digit_run_is(s: Seq<u8>, i: int)
    requires
        0 <= i <= s.len(),
        forall|k: int| 0 <= k < i ==> is_digit(#[trigger] s[k]),
        i < s.len() ==> !is_digit(s[i]),
    ensures
        digit_run(s) == i,
    decreases s.len(),
{
    if s.len() == 0 {
    } else if !is_digit(s[0]) {
        assert(i == 0);
    } else {
        assert(i != 0);
        assert forall|k: int| 0 <= k < i - 1 implies is_digit(#[trigger] s.drop_first()[k]) by {
            assert(s.drop_first()[k] == s[k + 1]);
        };
        if i - 1 < s.len() - 1 {
            assert(s.drop_first()[i - 1] == s[i]);
        }
        lemma_digit_run_is(s.drop_first(), i - 1);
    }
}

/// What the sequencing strategy yields: repeatedly "one unsigned decimal
/// integer, then exactly one newline" until the input is exhausted; fails
/// when the input does not have exactly that shape.
pub open spec fn spec_parse_lines(s: Seq<u8>) -> Option<Seq<u64>>
    decreases s.len(),
{
    if s.len() == 0 {
        Some(Seq::empty())
    } else {
        let i = digit_run(s);
        if !(1 <= i && i < s.len()) {
            None
        } else if s[i] != 10 {
            None
        } else if digits_value(s.take(i)) > u64::MAX {
            None
        } else {
            match spec_parse_lines(s.skip(i + 1)) {
                Some(vs) => Some(seq![(digits_value(s.take(i)) as u64)] + vs),
                None => None,
            }
        }
    }
}

/// The sequencing strategy: numbers separated and terminated by single
/// newlines, the whole input consumed; anything else is a failure.
pub fn parse_lines(blob: &Vec<u8>) -> (r: Option<Vec<u64>>)
    ensures
        (r is Some) == (spec_parse_lines(blob@) is Some),
        r matches Some(v) ==> spec_parse_lines(blob@) == Some(v@),
{
    let n = blob.len();
    let mut out: Vec<u64> = Vec::new();
    let mut pos: usize = 0;
    proof {
        assert(blob@.skip(0) =~= blob@);
        match spec_parse_lines(blob@) {
            Some(vs) => {
                assert(Seq::<u64>::empty() + vs =~= vs);
            },
            None => {},
        }
    }
    while pos < n
        invariant
            pos <= n == blob@.len(),
            spec_parse_lines(blob@) == (match spec_parse_lines(blob@.skip(pos as int)) {
                Some(vs) => Some(out@ + vs),
                None => None::<Seq<u64>>,
            }),
        decreases n - pos,
    {
        let mut j: usize = pos;
        while j < n && blob[j] >= 48 && blob[j] <= 57
            invariant
                pos <= j <= n == blob@.len(),
                forall|k: int| pos <= k < j ==> is_digit(#[trigger] blob@[k]),
            decreases n - j,
        {
            j = j + 1;
        }
        let ghost t = blob@.skip(pos as int);
        proof {
            assert forall|k: int| 0 <= k < j - pos implies is_digit(#[trigger] t[k]) by {
                assert(t[k] == blob@[k + pos]);
            };
            if j < n {
                assert(t[j - pos] == blob@[j as int]);
            }
            lemma_digit_run_is(t, j as int - pos as int);
            assert(t.take(j as int - pos as int) =~= blob@.subrange(pos as int, j as int));
        }
        if j == pos {
            return None;
        }
        if j == n {
            return None;
        }
        let nl = blob[j];
        if nl != 10 {
            return None;
        }
        let parsed = parse_u64_range(blob, pos, j);
        match parsed {
            None => {
                return None;
            },
            Some(v) => {
                let ghost prev = out@;
                out.push(v);
                proof {
                    assert(t.skip(j as int - pos as int + 1) =~= blob@.skip(j + 1));
                    lemma_digits_value_non_negative(blob@.subrange(pos as int, j as int));
                    assert(digits_value(t.take(j as int - pos as int)) == v);
                    match spec_parse_lines(blob@.skip(j + 1)) {
                        Some(vs) => {
                            assert(spec_parse_lines(t) == Some(seq![v] + vs));
                            assert(prev + (seq![v] + vs) =~= out@ + vs);
                        },
                        None => {
                            assert(spec_parse_lines(t) is None);
                        },
                    }
                }
                pos = j + 1;
            },
        }
    }
    proof {
        assert(blob@.skip(n as int) =~= Seq::<u8>::empty());
        assert(out@ + Seq::<u64>::empty() =~= out@);
    }
    Some(out)
}

/// Round-trip law: rendering any values one per line and parsing the text
/// back recovers exactly the original values, under both strategies.
pub proof fn lemma_round_trip(nums: Seq<u64>)
    ensures
        spec_parse_lines(spec_render_lines(nums)) == Some(nums),
        spec_split_parse(spec_render_lines(nums)) == nums,
    decreases nums.len(),
{
    let s = spec_render_lines(nums);
    if nums.len() == 0 {
        reveal_with_fuel(spec_parse_fragments, 2);
        assert(s.len() == 0);
        assert(nums =~= Seq::<u64>::empty());
        assert(spec_split(s) == seq![s]);
        assert(seq![s][0] == s);
        assert(seq![s].drop_first() =~= Seq::<Seq<u8>>::empty());
        assert(spec_parse_fragments(seq![s]) =~= nums);
    } else {
        let x = nums[0];
        let rest = nums.drop_first();
        let d = spec_digits(x as nat);
        let tail = spec_render_lines(rest);
        lemma_digits_shape(x as nat);
        let l = d.len() as int;
        assert(s == d + seq![10u8] + tail);
        assert forall|k: int| 0 <= k < l implies s[k] == d[k] && s[k] != 10 by {
            assert(s[k] == d[k]);
            assert(is_digit(d[k]));
        };
        assert(s[l] == 10);
        assert(!is_digit(10u8));
        lemma_round_trip(rest);
        lemma_digit_run_is(s, l);
        lemma_first_nl_is(s, l);
        assert(s.take(l) =~= d);
        assert(s.skip(l + 1) =~= tail);
        assert(digits_value(d) == x);
        assert(spec_parse_u64(d) == Some(x));
        assert(seq![x] + rest =~= nums);
        // sequencing strategy
        assert(spec_parse_lines(s) == Some(seq![x] + rest));
        // split strategy
        assert(spec_split(s) == seq![d] + spec_split(tail));
        let frags = spec_split(s);
        assert(frags[0] == d);
        assert(frags.drop_first() =~= spec_split(tail));
        assert(spec_parse_fragments(frags) == seq![x] + spec_parse_fragments(spec_split(tail)));
        assert(spec_split_parse(s) == nums);
    }
}

} // verus!
