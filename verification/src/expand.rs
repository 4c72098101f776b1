//! Bracket-range expansion: the range parser, the single-bracket expander,
//! and the recursive expander.
//!
//! `create_renban` turns a `<left>-<right>` token into the ascending list of
//! formatted numbers.  `renban1range` substitutes the first `[...]` span of
//! a pattern with each of those numbers.  `renban` repeats that until the
//! first produced string carries no further `[`.  Splitting is always at the
//! *first* occurrence of the delimiter — not at a matched pair — and when
//! the first `]` precedes the first `[` the middle is taken to be empty, so
//! range parsing fails and the error surfaces unchanged.

use crate::errors::{IntParseKind, RenbanError};
use crate::num::{
    dec_digits, digit_char, format_i32, format_padded, int_str, lemma_dec_digits_chars,
    lemma_dec_digits_leading, lemma_parse_int_str, lemma_parse_leading_zero_nonneg, pad_str,
    parse_i32, spec_parse_i32,
};
use crate::text::{
    count_char, find_char, first_index, lemma_count_absent, lemma_count_concat,
    lemma_count_present, lemma_first_index_spec, lemma_first_index_witness,
};
use vstd::prelude::*;
use vstd::string::*;

verus! {

/// The formatted form of one range element: zero-padded to the left
/// literal's width when that literal starts with `'0'`, minimal otherwise.
pub open spec fn format_elem(n: int, left: Seq<char>) -> Seq<char> {
    if left.len() > 0 && left[0] == '0' {
        pad_str(n, left.len())
    } else {
        int_str(n)
    }
}

/// What parsing a range token yields: split at the first `-`, parse both
/// sides as `i32`, and list every value of the inclusive range in ascending
/// order, formatted per the padding policy of the left literal.
pub open spec fn parse_range_spec(s: Seq<char>) -> Result<Seq<Seq<char>>, RenbanError> {
    match first_index(s, '-') {
        None => Err(RenbanError::InvalidArgs),
        Some(h) => {
            let left = s.subrange(0, h);
            let right = s.subrange(h + 1, s.len() as int);
            match spec_parse_i32(left) {
                Err(e) => Err(RenbanError::ParseError(e)),
                Ok(from) => match spec_parse_i32(right) {
                    Err(e) => Err(RenbanError::ParseError(e)),
                    Ok(to) => if to < from {
                        Err(RenbanError::InvalidRange)
                    } else {
                        Ok(
                            Seq::new(
                                (to - from + 1) as nat,
                                |i: int| format_elem(from + i, left),
                            ),
                        )
                    },
                },
            }
        },
    }
}

/// What one expansion step yields: split at the first `[` and the first `]`
/// (independently; an empty middle when the `]` comes first), parse the
/// middle as a range token, and emit `prefix + number + suffix` for each of
/// its values.
pub open spec fn expand_once_spec(s: Seq<char>) -> Result<Seq<Seq<char>>, RenbanError> {
    match (first_index(s, '['), first_index(s, ']')) {
        (Some(l), Some(r)) => {
            let prefix = s.subrange(0, l);
            let middle = if r >= l + 1 {
                s.subrange(l + 1, r)
            } else {
                Seq::<char>::empty()
            };
            let suffix = s.subrange(r + 1, s.len() as int);
            match parse_range_spec(middle) {
                Err(e) => Err(e),
                Ok(nums) => Ok(Seq::new(nums.len(), |i: int| prefix + nums[i] + suffix)),
            }
        },
        _ => Err(RenbanError::InvalidArgs),
    }
}

/// What full expansion yields: expand once; if the first produced string has
/// no `[` left, stop (only the first is inspected); otherwise expand every
/// produced string recursively and concatenate, leftmost varying slowest.
/// The recursion is bounded by the `[` count, which each successful step
/// strictly decreases; the guarded branches below are never reached.
pub open spec fn expand_all_spec(s: Seq<char>) -> Result<Seq<Seq<char>>, RenbanError>
    decreases count_char(s, '['), 0nat, 0nat,
{
    match expand_once_spec(s) {
        Err(e) => Err(e),
        Ok(list) => {
            if first_index(list[0], '[') is None {
                Ok(list)
            } else if count_char(s, '[') >= 1 {
                expand_list_spec((count_char(s, '[') - 1) as nat, list)
            } else {
                Err(RenbanError::InvalidArgs)
            }
        },
    }
}

/// Expansion of each element of `list` in order, every element holding at
/// most `cap` opening brackets, with the sub-results concatenated.
pub open spec fn expand_list_spec(cap: nat, list: Seq<Seq<char>>) -> Result<
    Seq<Seq<char>>,
    RenbanError,
>
    decreases cap, 1nat, list.len(),
{
    if list.len() == 0 {
        Ok(Seq::<Seq<char>>::empty())
    } else if count_char(list[0], '[') <= cap {
        match expand_all_spec(list[0]) {
            Err(e) => Err(e),
            Ok(h) => match expand_list_spec(cap, list.skip(1)) {
                Err(e) => Err(e),
                Ok(t) => Ok(h + t),
            },
        }
    } else {
        Err(RenbanError::InvalidArgs)
    }
}

/// The view of an expansion result: the strings as character sequences.
pub open spec fn res_view(r: Result<Vec<String>, RenbanError>) -> Result<
    Seq<Seq<char>>,
    RenbanError,
> {
    match r {
        Ok(v) => Ok(v.deep_view()),
        Err(e) => Err(e),
    }
}

/// A formatted range element consists of digits, possibly behind a sign, so
/// it never contains an opening bracket.
pub proof fn lemma_format_elem_no_bracket(n: int, left: Seq<char>)
    ensures
        count_char(format_elem(n, left), '[') == 0,
{
    let e = format_elem(n, left);
    assert forall|j: int| 0 <= j < e.len() implies e[j] != '[' by {
        if n < 0 {
            lemma_dec_digits_chars((-n) as nat);
            assert(e == seq!['-'] + dec_digits((-n) as nat));
            if j > 0 {
                assert(e[j] == dec_digits((-n) as nat)[j - 1]);
                assert(e[j] as u32 <= 57);
            }
        } else {
            lemma_dec_digits_chars(n as nat);
            let d = dec_digits(n as nat);
            if left.len() > 0 && left[0] == '0' && d.len() < left.len() {
                assert(e == Seq::new((left.len() - d.len()) as nat, |i: int| '0') + d);
                if j >= left.len() - d.len() {
                    assert(e[j] == d[j - (left.len() - d.len())]);
                    assert(e[j] as u32 <= 57);
                }
            } else {
                assert(e == d);
                assert(e[j] as u32 <= 57);
            }
        }
    };
    lemma_count_absent(e, '[');
}

/// A successful range parse yields at least one element, none of which
/// contains an opening bracket.
pub proof fn lemma_parse_range_ok(s: Seq<char>)
    requires
        parse_range_spec(s) is Ok,
    ensures
        parse_range_spec(s)->Ok_0.len() >= 1,
        forall|i: int|
            0 <= i < parse_range_spec(s)->Ok_0.len() ==> count_char(
                #[trigger] parse_range_spec(s)->Ok_0[i],
                '[',
            ) == 0,
{
    let list = parse_range_spec(s)->Ok_0;
    assert forall|i: int| 0 <= i < list.len() implies count_char(list[i], '[') == 0 by {
        let h = first_index(s, '-')->0;
        let left = s.subrange(0, h);
        let from = spec_parse_i32(left)->Ok_0;
        assert(list[i] == format_elem(from + i, left));
        lemma_format_elem_no_bracket(from + i, left);
    };
}

/// A successful expansion step yields at least one string, consumes the
/// bracket it found, and never introduces one: every produced string has
/// strictly fewer opening brackets than the input.
pub proof fn lemma_expand_once_ok(s: Seq<char>)
    requires
        expand_once_spec(s) is Ok,
    ensures
        expand_once_spec(s)->Ok_0.len() >= 1,
        count_char(s, '[') >= 1,
        forall|i: int|
            0 <= i < expand_once_spec(s)->Ok_0.len() ==> count_char(
                #[trigger] expand_once_spec(s)->Ok_0[i],
                '[',
            ) < count_char(s, '['),
{
    let l = first_index(s, '[')->0;
    let r = first_index(s, ']')->0;
    lemma_first_index_spec(s, '[');
    lemma_first_index_spec(s, ']');
    lemma_count_present(s, '[', l);
    if r < l + 1 {
        assert(first_index(Seq::<char>::empty(), '-') is None);
        assert(parse_range_spec(Seq::<char>::empty()) is Err);
        assert(false);
    }
    let prefix = s.subrange(0, l);
    let middle = s.subrange(l + 1, r);
    let suffix = s.subrange(r + 1, s.len() as int);
    let nums = parse_range_spec(middle)->Ok_0;
    let list = expand_once_spec(s)->Ok_0;
    lemma_parse_range_ok(middle);
    assert forall|j: int| 0 <= j < prefix.len() implies prefix[j] != '[' by {
        assert(prefix[j] == s[j]);
    };
    lemma_count_absent(prefix, '[');
    assert(s =~= prefix + seq![s[l]] + middle + seq![s[r]] + suffix);
    lemma_count_concat(prefix + seq![s[l]] + middle + seq![s[r]], suffix, '[');
    lemma_count_concat(prefix + seq![s[l]] + middle, seq![s[r]], '[');
    lemma_count_concat(prefix + seq![s[l]], middle, '[');
    lemma_count_concat(prefix, seq![s[l]], '[');
    assert(seq![s[l]].skip(1) =~= Seq::<char>::empty());
    assert(count_char(Seq::<char>::empty(), '[') == 0);
    assert(seq![s[l]][0] == s[l]);
    assert(count_char(seq![s[l]], '[') == 1);
    assert(count_char(s, '[') >= 1 + count_char(suffix, '['));
    assert forall|i: int| 0 <= i < list.len() implies count_char(list[i], '[') < count_char(
        s,
        '[',
    ) by {
        assert(list[i] == prefix + nums[i] + suffix);
        lemma_count_concat(prefix + nums[i], suffix, '[');
        lemma_count_concat(prefix, nums[i], '[');
        assert(count_char(nums[i], '[') == 0);
    };
}

/// Parses a `<left>-<right>` token and lists the inclusive range in
/// ascending order, each number formatted with the zero-padding width of
/// the left literal when that literal starts with `'0'`.
#[verifier::loop_isolation(false)]
pub fn create_renban(s: &str) -> (r: Result<Vec<String>, RenbanError>)
    ensures
        res_view(r) == parse_range_spec(s@),
{
    let n = s.unicode_len();
    let h = match find_char(s, '-') {
        Some(i) => i,
        None => {
            return Err(RenbanError::InvalidArgs);
        },
    };
    proof {
        lemma_first_index_spec(s@, '-');
    }
    let left = s.substring_char(0, h);
    let right = s.substring_char(h + 1, n);
    let from = match parse_i32(left) {
        Ok(v) => v,
        Err(e) => {
            return Err(RenbanError::ParseError(e));
        },
    };
    let to = match parse_i32(right) {
        Ok(v) => v,
        Err(e) => {
            return Err(RenbanError::ParseError(e));
        },
    };
    if to < from {
        return Err(RenbanError::InvalidRange);
    }
    let pad = left.get_char(0) == '0';
    let width = left.unicode_len();
    proof {
        if pad {
            lemma_parse_leading_zero_nonneg(left@);
        }
    }
    let total: u64 = (to as i64 - from as i64 + 1) as u64;
    let mut out: Vec<String> = Vec::new();
    let mut k: u64 = 0;
    while k < total
        invariant
            out@.len() == k,
            k <= total,
            forall|i: int| 0 <= i < k ==> (#[trigger] out@[i])@ == format_elem(from + i, left@),
        decreases total - k,
    {
        let v: i32 = ((from as i64) + (k as i64)) as i32;
        let item = if pad {
            format_padded(v, width)
        } else {
            format_i32(v)
        };
        proof {
            assert(item@ == format_elem(from + k, left@));
        }
        out.push(item);
        k += 1;
    }
    proof {
        assert(out.deep_view() =~= Seq::new(
            (to - from + 1) as nat,
            |i: int| format_elem(from + i, s@.subrange(0, h as int)),
        ));
        assert(parse_range_spec(s@) == Ok::<Seq<Seq<char>>, RenbanError>(out.deep_view()));
    }
    Ok(out)
}

/// Expands the first `[...]` span of `s`: every value of the range token
/// between the first `[` and the first `]` is substituted in turn, keeping
/// the text before and after the brackets.
#[verifier::loop_isolation(false)]
pub fn renban1range(s: &str) -> (r: Result<Vec<String>, RenbanError>)
    ensures
        res_view(r) == expand_once_spec(s@),
{
    let n = s.unicode_len();
    let lb = match find_char(s, '[') {
        Some(i) => i,
        None => {
            return Err(RenbanError::InvalidArgs);
        },
    };
    let rb = match find_char(s, ']') {
        Some(i) => i,
        None => {
            return Err(RenbanError::InvalidArgs);
        },
    };
    proof {
        lemma_first_index_spec(s@, '[');
        lemma_first_index_spec(s@, ']');
    }
    let prefix = s.substring_char(0, lb);
    let mid_hi = if rb >= lb + 1 {
        rb
    } else {
        lb + 1
    };
    let middle = s.substring_char(lb + 1, mid_hi);
    proof {
        if rb < lb + 1 {
            assert(middle@ =~= Seq::<char>::empty());
        }
    }
    let suffix = s.substring_char(rb + 1, n);
    let nums = match create_renban(middle) {
        Ok(v) => v,
        Err(e) => {
            return Err(e);
        },
    };
    let mut out: Vec<String> = Vec::new();
    let cnt = nums.len();
    let mut idx: usize = 0;
    while idx < cnt
        invariant
            idx <= cnt,
            cnt == nums@.len(),
            out@.len() == idx,
            forall|i: int|
                0 <= i < idx ==> (#[trigger] out@[i])@ == prefix@ + nums@[i]@ + suffix@,
        decreases cnt - idx,
    {
        let mut t = prefix.to_owned();
        t.append(nums[idx].as_str());
        t.append(suffix);
        out.push(t);
        idx += 1;
    }
    proof {
        let snums = nums.deep_view();
        assert(out.deep_view() =~= Seq::new(
            snums.len(),
            |i: int| s@.subrange(0, lb as int) + snums[i] + s@.subrange(rb + 1, n as int),
        ));
        assert(expand_once_spec(s@) == Ok::<Seq<Seq<char>>, RenbanError>(out.deep_view()));
    }
    Ok(out)
}

/// Expands every bracket of the pattern: one step, then — unless the first
/// produced string is bracket-free — recursive expansion of each produced
/// string, results concatenated in order.
#[verifier::loop_isolation(false)]
pub fn renban(s: &str) -> (r: Result<Vec<String>, RenbanError>)
    ensures
        res_view(r) == expand_all_spec(s@),
    decreases count_char(s@, '['),
{
    let list = match renban1range(s) {
        Ok(l) => l,
        Err(e) => {
            return Err(e);
        },
    };
    proof {
        lemma_expand_once_ok(s@);
    }
    if find_char(list[0].as_str(), '[').is_none() {
        proof {
            assert(list.deep_view()[0] == list@[0]@);
            assert(expand_all_spec(s@) == Ok::<Seq<Seq<char>>, RenbanError>(list.deep_view()));
        }
        return Ok(list);
    }
    let ghost ldv = list.deep_view();
    let ghost cap = (count_char(s@, '[') - 1) as nat;
    proof {
        assert(expand_all_spec(s@) == expand_list_spec(cap, ldv));
    }
    let mut out: Vec<String> = Vec::new();
    proof {
        assert(ldv.skip(0) =~= ldv);
        assert(out.deep_view() =~= Seq::<Seq<char>>::empty());
        if let Ok(t) = expand_list_spec(cap, ldv) {
            assert(out.deep_view() + t =~= t);
        }
    }
    let cnt = list.len();
    let mut i: usize = 0;
    while i < cnt
        invariant
            i <= cnt,
            cnt == list@.len(),
            match expand_list_spec(cap, ldv.skip(i as int)) {
                Ok(t) => expand_list_spec(cap, ldv) == Ok::<Seq<Seq<char>>, RenbanError>(
                    out.deep_view() + t,
                ),
                Err(e) => expand_list_spec(cap, ldv) == Err::<Seq<Seq<char>>, RenbanError>(e),
            },
        decreases cnt - i,
    {
        proof {
            assert(ldv.skip(i as int)[0] == ldv[i as int]);
            assert(ldv[i as int] == list@[i as int]@);
            assert(count_char(ldv[i as int], '[') <= cap);
            assert(ldv.skip(i as int).skip(1) =~= ldv.skip(i as int + 1));
        }
        let mut sub = match renban(list[i].as_str()) {
            Ok(v) => v,
            Err(e) => {
                proof {
                    assert(expand_list_spec(cap, ldv.skip(i as int)) == Err::<
                        Seq<Seq<char>>,
                        RenbanError,
                    >(e));
                }
                return Err(e);
            },
        };
        let ghost old_out = out.deep_view();
        let ghost sub_dv = sub.deep_view();
        out.append(&mut sub);
        proof {
            assert(out.deep_view() =~= old_out + sub_dv);
            assert(match expand_list_spec(cap, ldv.skip(i as int)) {
                Ok(t) => t =~= sub_dv + expand_list_spec(cap, ldv.skip(i as int + 1))->Ok_0,
                Err(e) => true,
            });
        }
        i += 1;
        proof {
            if let Ok(t) = expand_list_spec(cap, ldv.skip(i as int)) {
                assert(old_out + (sub_dv + t) =~= out.deep_view() + t);
            }
        }
    }
    proof {
        assert(ldv.skip(cnt as int) =~= Seq::<Seq<char>>::empty());
        assert(expand_list_spec(cap, ldv.skip(cnt as int)) == Ok::<Seq<Seq<char>>, RenbanError>(
            Seq::<Seq<char>>::empty(),
        ));
        assert(out.deep_view() + Seq::<Seq<char>>::empty() =~= out.deep_view());
    }
    Ok(out)
}

/// The top-level policy: the full expansion on success, the input itself as
/// the sole element on any failure (the identity fallback).
pub open spec fn expand_fallback_spec(s: Seq<char>) -> Seq<Seq<char>> {
    match expand_all_spec(s) {
        Ok(list) => list,
        Err(_) => seq![s],
    }
}

/// Expands the pattern, falling back to the unchanged input on any error.
pub fn renban_with_fallback(s: &str) -> (r: Vec<String>)
    ensures
        r.deep_view() == expand_fallback_spec(s@),
{
    match renban(s) {
        Ok(list) => list,
        Err(_) => {
            let mut v: Vec<String> = Vec::new();
            v.push(s.to_owned());
            proof {
                assert(v.deep_view() =~= seq![s@]);
            }
            v
        },
    }
}

/// For all `0 <= a <= b`, parsing the token written `a-b` (both bounds in
/// minimal decimal form) succeeds with exactly `b - a + 1` elements, the
/// `i`-th being the minimal, unpadded representation of `a + i` — so the
/// denoted values ascend strictly, and padding occurs only when the left
/// literal leads with a zero digit, which a minimal literal does for the
/// value zero alone, where padding to width one changes nothing.  (A
/// negative `a` is out of scope: the first-occurrence split would take its
/// leading `-` for the range separator.)
pub proof fn lemma_parse_range_count(a: i32, b: i32)
    requires
        0 <= a <= b,
    ensures
        parse_range_spec(int_str(a as int) + seq!['-'] + int_str(b as int)) matches Ok(list)
            && list.len() == b - a + 1 && (forall|i: int|
            0 <= i < list.len() ==> #[trigger] list[i] == int_str(a + i)) && (forall|i: int|
            0 <= i < list.len() ==> spec_parse_i32(#[trigger] list[i]) == Ok::<
                i32,
                IntParseKind,
            >((a + i) as i32)),
{
    let la = int_str(a as int);
    let lb = int_str(b as int);
    let token = la + seq!['-'] + lb;
    lemma_dec_digits_chars(a as nat);
    lemma_dec_digits_chars(b as nat);
    assert(token[la.len() as int] == '-');
    assert forall|j: int| 0 <= j < la.len() implies token[j] != '-' by {
        assert(token[j] == la[j]);
        assert(48 <= la[j] as u32 <= 57);
    };
    lemma_first_index_witness(token, '-', la.len() as int);
    assert(token.subrange(0, la.len() as int) =~= la);
    assert(token.subrange(la.len() as int + 1, token.len() as int) =~= lb);
    lemma_parse_int_str(a as int);
    lemma_parse_int_str(b as int);
    let list = parse_range_spec(token)->Ok_0;
    assert(list.len() == b - a + 1);
    assert forall|i: int| 0 <= i < list.len() implies #[trigger] list[i] == int_str(a + i) by {
        assert(list[i] == format_elem(a + i, la));
        lemma_dec_digits_leading(a as nat);
        lemma_dec_digits_chars((a + i) as nat);
        if a == 0 {
            assert(la == dec_digits(0));
            assert(dec_digits(0) == seq![digit_char(0)]);
            assert(la.len() == 1);
            assert(dec_digits((a + i) as nat).len() >= 1);
            assert(format_elem(a + i, la) == dec_digits((a + i) as nat));
        } else {
            assert(la[0] != '0');
        }
    };
    assert forall|i: int| 0 <= i < list.len() implies spec_parse_i32(#[trigger] list[i]) == Ok::<
        i32,
        IntParseKind,
    >((a + i) as i32) by {
        lemma_parse_int_str(a + i);
    };
}

/// A pattern without any `[` cannot be expanded: expansion reports
/// `InvalidArgs`, so the identity fallback returns the input itself as the
/// sole element.
pub proof fn lemma_bracket_free_identity(s: Seq<char>)
    requires
        first_index(s, '[') is None,
    ensures
        expand_all_spec(s) == Err::<Seq<Seq<char>>, RenbanError>(RenbanError::InvalidArgs),
        expand_fallback_spec(s) == seq![s],
{
    assert(expand_once_spec(s) == Err::<Seq<Seq<char>>, RenbanError>(RenbanError::InvalidArgs));
}

} // verus!
