//! The `concat` transform: the one transform the builder registry knows.
//!
//! It reads named fields of the input event, takes optional byte-index
//! slices of each, joins them with a configured separator, writes the result
//! into a target field and emits the modified event.
//!
//! A substring item is written `source[start..end]`: an optional source
//! identifier, optionally followed by a bracket section with two optional
//! integer bounds around `..`. An absent bound defaults to `0` and to the
//! full byte length, and slicing clamps both bounds to the value's length; a
//! malformed bracket section is a build-time error.

use vstd::prelude::*;
use vstd::string::*;
use vstd::utf8::encode_utf8;
use crate::event::Event;

verus! {

/// A digit character.
pub open spec fn is_digit(c: char) -> bool {
    ('0' as u32) <= (c as u32) && (c as u32) <= ('9' as u32)
}

/// Every character is a digit.
pub open spec fn all_digits(s: Seq<char>) -> bool {
    forall|i: int| 0 <= i < s.len() ==> is_digit(#[trigger] s[i])
}

/// The value of a digit character.
pub open spec fn digit_val(c: char) -> int {
    (c as u32) - ('0' as u32)
}

/// The decimal value of a digit string.
pub open spec fn dec_val(s: Seq<char>) -> int
    decreases s.len(),
{
    if s.len() == 0 {
        0
    } else {
        dec_val(s.drop_last()) * 10 + digit_val(s.last())
    }
}

/// The index of the first occurrence of `c`, or `-1`.
pub open spec fn find_char(s: Seq<char>, c: char) -> int
    decreases s.len(),
{
    if s.len() == 0 {
        -1
    } else if s.first() == c {
        0
    } else {
        let r = find_char(s.drop_first(), c);
        if r == -1 {
            -1
        } else {
            r + 1
        }
    }
}

/// The length of the longest digit prefix.
pub open spec fn digit_prefix_len(s: Seq<char>) -> int
    decreases s.len(),
{
    if s.len() == 0 || !is_digit(s.first()) {
        0
    } else {
        1 + digit_prefix_len(s.drop_first())
    }
}

/// A bound written as a digit string: absent when empty, and saturated at
/// the machine's limit when larger (slicing clamps to the value's length
/// long before that).
pub open spec fn bound_of(s: Seq<char>) -> Option<usize> {
    if s.len() > 0 && all_digits(s) {
        if dec_val(s) > usize::MAX {
            Some(usize::MAX)
        } else {
            Some(dec_val(s) as usize)
        }
    } else {
        None
    }
}

/// The abstract value of a substring item.
#[verifier::ext_equal]
pub struct SubstringV {
    pub source: Seq<char>,
    pub start: Option<usize>,
    pub end: Option<usize>,
}

/// The meaning of a substring item string, or `None` when it is malformed.
pub open spec fn spec_parse_substring(s: Seq<char>) -> Option<SubstringV> {
    let bi = find_char(s, '[');
    if bi == -1 {
        if s.len() > 0 {
            Some(SubstringV { source: s, start: None, end: None })
        } else {
            None
        }
    } else {
        let rest = s.skip(bi + 1);
        let ci = find_char(rest, ']');
        if ci == -1 {
            None
        } else {
            let body = rest.take(ci);
            let a = digit_prefix_len(body);
            if body.len() >= a + 2 && body[a] == '.' && body[a + 1] == '.' && all_digits(
                body.skip(a + 2),
            ) {
                Some(
                    SubstringV {
                        source: s.take(bi),
                        start: bound_of(body.take(a)),
                        end: bound_of(body.skip(a + 2)),
                    },
                )
            } else {
                None
            }
        }
    }
}

/// The first offence met after the opening bracket, walking the text left
/// to right: `0` when a `]` or the end of the text comes first, `1` for a
/// dot not followed by a second dot, `2` for a character that is neither a
/// digit, a dot nor `]`.
pub open spec fn scan_offence(s: Seq<char>) -> int
    decreases s.len(),
{
    if s.len() == 0 {
        0
    } else if s.first() == ']' {
        0
    } else if is_digit(s.first()) {
        scan_offence(s.drop_first())
    } else if s.first() == '.' {
        if s.len() >= 2 && s[1] == '.' {
            scan_offence(s.skip(2))
        } else {
            1
        }
    } else {
        2
    }
}

/// The error message for a malformed substring item, selected as the
/// builder scans: a stray character inside the bracket section is reported
/// as a missing `]` even when the bracket is never closed, while a lone dot
/// or any structural fault points at the expected shape. A lone dot stops
/// the scan before a later stray character can.
pub open spec fn substring_err_msg(s: Seq<char>) -> Seq<char> {
    let bi = find_char(s, '[');
    if bi != -1 && scan_offence(s.skip(bi + 1)) == 2 {
        "invalid format, missing ']'"@
    } else {
        "invalid format, use source[start..end]"@
    }
}

pub proof fn lemma_find_char(s: Seq<char>, c: char)
    ensures
        find_char(s, c) == -1 <==> (forall|i: int| 0 <= i < s.len() ==> s[i] != c),
        find_char(s, c) != -1 ==> 0 <= find_char(s, c) < s.len() && s[find_char(s, c)] == c
            && (forall|i: int| 0 <= i < find_char(s, c) ==> s[i] != c),
    decreases s.len(),
{
    if s.len() > 0 && s.first() != c {
        lemma_find_char(s.drop_first(), c);
        assert(forall|i: int| 0 <= i < s.drop_first().len() ==> s.drop_first()[i] == s[i + 1]);
        let r = find_char(s.drop_first(), c);
        if r == -1 {
            assert forall|i: int| 0 <= i < s.len() implies s[i] != c by {
                if i > 0 {
                    assert(s.drop_first()[i - 1] == s[i]);
                }
            }
        } else {
            assert(s[r + 1] == s.drop_first()[r]);
            assert forall|i: int| 0 <= i < r + 1 implies s[i] != c by {
                if i > 0 {
                    assert(s.drop_first()[i - 1] == s[i]);
                }
            }
        }
    }
}

pub proof fn lemma_digit_prefix(s: Seq<char>)
    ensures
        0 <= digit_prefix_len(s) <= s.len(),
        forall|i: int| 0 <= i < digit_prefix_len(s) ==> is_digit(#[trigger] s[i]),
        digit_prefix_len(s) < s.len() ==> !is_digit(s[digit_prefix_len(s)]),
    decreases s.len(),
{
    if s.len() > 0 && is_digit(s.first()) {
        lemma_digit_prefix(s.drop_first());
        let a = digit_prefix_len(s.drop_first());
        assert(forall|i: int| 0 <= i < s.drop_first().len() ==> s.drop_first()[i] == s[i + 1]);
        assert forall|i: int| 0 <= i < a + 1 implies is_digit(#[trigger] s[i]) by {
            if i > 0 {
                assert(s.drop_first()[i - 1] == s[i]);
            }
        }
        if a + 1 < s.len() {
            assert(s.drop_first()[a] == s[a + 1]);
        }
    }
}

pub proof fn lemma_dec_val_step(s: Seq<char>, k: int)
    requires
        0 <= k < s.len(),
    ensures
        dec_val(s.take(k + 1)) == dec_val(s.take(k)) * 10 + digit_val(s[k]),
{
    assert(s.take(k + 1).drop_last() =~= s.take(k));
    assert(s.take(k + 1).last() == s[k]);
}

pub proof fn lemma_dec_val_nonneg(s: Seq<char>)
    requires
        all_digits(s),
    ensures
        dec_val(s) >= 0,
    decreases s.len(),
{
    if s.len() > 0 {
        assert(forall|i: int| 0 <= i < s.drop_last().len() ==> s.drop_last()[i] == s[i]);
        lemma_dec_val_nonneg(s.drop_last());
        assert(is_digit(s.last()));
    }
}

/// Walks the text from `from` as the builder does and reports the first
/// offence, as `scan_offence` of the remaining text.
fn scan_offence_from(s: &str, from: usize) -> (r: u32)
    requires
        from <= s@.len(),
    ensures
        r as int == scan_offence(s@.skip(from as int)),
{
    let n = s.unicode_len();
    let mut k: usize = from;
    while k < n
        invariant
            from <= k <= n == s@.len(),
            scan_offence(s@.skip(from as int)) == scan_offence(s@.skip(k as int)),
        decreases n - k,
    {
        let c = s.get_char(k);
        proof {
            assert(s@.skip(k as int).first() == s@[k as int]);
        }
        let cu = c as u32;
        if c == ']' {
            return 0;
        } else if ('0' as u32) <= cu && cu <= ('9' as u32) {
            proof {
                assert(s@.skip(k as int).drop_first() =~= s@.skip(k + 1 as int));
            }
            k += 1;
        } else if c == '.' {
            let two = if k + 1 < n {
                s.get_char(k + 1) == '.'
            } else {
                false
            };
            if two {
                proof {
                    assert(s@.skip(k as int).len() >= 2);
                    assert(s@.skip(k as int)[1] == s@[k + 1 as int]);
                    assert(s@.skip(k as int).skip(2) =~= s@.skip(k + 2 as int));
                }
                k += 2;
            } else {
                proof {
                    if k + 1 < n {
                        assert(s@.skip(k as int)[1] == s@[k + 1 as int]);
                    }
                    assert(scan_offence(s@.skip(k as int)) == 1);
                }
                return 1;
            }
        } else {
            return 2;
        }
    }
    proof {
        assert(s@.skip(n as int) =~= Seq::<char>::empty());
    }
    0
}

/// Builds the error message of a malformed item whose opening bracket
/// stands at `b`.
fn bracket_err(input: &String, b: usize) -> (m: String)
    requires
        find_char(input@, '[') == b as int,
        b < input@.len(),
        input@.len() <= usize::MAX,
    ensures
        m@ == substring_err_msg(input@),
{
    let s = input.as_str();
    let off = scan_offence_from(s, b + 1);
    if off == 2 {
        String::from_str("invalid format, missing ']'")
    } else {
        String::from_str("invalid format, use source[start..end]")
    }
}

/// Reads the value of the all-digit segment `[from, to)` of `s`: absent
/// when the segment is empty, saturated at the machine's limit when larger.
fn scan_value(s: &str, from: usize, to: usize) -> (r: Option<usize>)
    requires
        from <= to <= s@.len(),
        all_digits(s@.subrange(from as int, to as int)),
    ensures
        r == bound_of(s@.subrange(from as int, to as int)),
{
    let ghost seg = s@.subrange(from as int, to as int);
    let mut val: usize = 0;
    let mut big = false;
    let mut k: usize = from;
    proof {
        assert(seg.take(0) =~= Seq::<char>::empty());
    }
    while k < to
        invariant
            from <= k <= to <= s@.len(),
            seg == s@.subrange(from as int, to as int),
            all_digits(seg),
            !big ==> val == dec_val(seg.take(k - from)),
            big ==> dec_val(seg.take(k - from)) > usize::MAX,
        decreases to - k,
    {
        let c = s.get_char(k);
        proof {
            assert(seg[k - from] == s@[k as int]);
            assert(is_digit(seg[k - from]));
            lemma_dec_val_step(seg, k - from);
        }
        let d: u32 = (c as u32) - ('0' as u32);
        let du: usize = d as usize;
        if !big {
            if val > usize::MAX / 10 || (val == usize::MAX / 10 && du > usize::MAX % 10) {
                proof {
                    let pre = dec_val(seg.take(k - from));
                    assert(usize::MAX == 10 * (usize::MAX / 10) + (usize::MAX % 10));
                    if val > usize::MAX / 10 {
                        assert(pre * 10 + digit_val(seg[k - from]) > usize::MAX) by (nonlinear_arith)
                            requires
                                pre == val,
                                val > usize::MAX / 10,
                                usize::MAX == 10 * (usize::MAX / 10) + (usize::MAX % 10),
                                usize::MAX % 10 < 10,
                                digit_val(seg[k - from]) >= 0,
                        ;
                    } else {
                        assert(pre * 10 + digit_val(seg[k - from]) > usize::MAX) by (nonlinear_arith)
                            requires
                                pre == val,
                                val == usize::MAX / 10,
                                digit_val(seg[k - from]) == du,
                                du > usize::MAX % 10,
                                usize::MAX == 10 * (usize::MAX / 10) + (usize::MAX % 10),
                        ;
                    }
                }
                big = true;
            } else {
                proof {
                    let pre = dec_val(seg.take(k - from));
                    assert(pre * 10 + digit_val(seg[k - from]) <= usize::MAX) by (nonlinear_arith)
                        requires
                            pre == val,
                            0 <= val,
                            digit_val(seg[k - from]) == du,
                            0 <= du <= 9,
                            usize::MAX == 10 * (usize::MAX / 10) + (usize::MAX % 10),
                            val < usize::MAX / 10 || (val == usize::MAX / 10 && du <= usize::MAX
                                % 10),
                    ;
                }
                val = val * 10 + du;
            }
        } else {
            proof {
                let pre = dec_val(seg.take(k - from));
                assert(forall|i: int|
                    0 <= i < seg.take(k - from).len() ==> seg.take(k - from)[i] == seg[i]);
                lemma_dec_val_nonneg(seg.take(k - from));
                assert(pre * 10 + digit_val(seg[k - from]) > usize::MAX) by (nonlinear_arith)
                    requires
                        pre > usize::MAX,
                        digit_val(seg[k - from]) >= 0,
                ;
            }
        }
        k += 1;
    }
    proof {
        assert(seg.take(to - from) =~= seg);
    }
    if to == from {
        proof {
            assert(seg.len() == 0);
        }
        None
    } else if big {
        Some(usize::MAX)
    } else {
        Some(val)
    }
}

/// Finds the first non-digit position in `[from, to)`, or `to`.
fn scan_digits(s: &str, from: usize, to: usize) -> (r: usize)
    requires
        from <= to <= s@.len(),
    ensures
        from <= r <= to,
        forall|k: int| from <= k < r ==> is_digit(#[trigger] s@[k]),
        r < to ==> !is_digit(s@[r as int]),
{
    let mut i: usize = from;
    while i < to
        invariant
            from <= i <= to <= s@.len(),
            forall|k: int| from <= k < i ==> is_digit(#[trigger] s@[k]),
        decreases to - i,
    {
        let c = s.get_char(i);
        let cu = c as u32;
        if !(('0' as u32) <= cu && cu <= ('9' as u32)) {
            return i;
        }
        i += 1;
    }
    to
}

/// Finds the first occurrence of `c` in `s` at or after `from`.
fn scan_char(s: &str, from: usize, c: char) -> (r: Option<usize>)
    requires
        from <= s@.len(),
    ensures
        match r {
            Some(i) => from <= i < s@.len() && s@[i as int] == c && (forall|k: int|
                from <= k < i ==> s@[k] != c),
            None => forall|k: int| from <= k < s@.len() ==> s@[k] != c,
        },
{
    let n = s.unicode_len();
    let mut i: usize = from;
    while i < n
        invariant
            from <= i <= n == s@.len(),
            forall|k: int| from <= k < i ==> s@[k] != c,
        decreases n - i,
    {
        if s.get_char(i) == c {
            return Some(i);
        }
        i += 1;
    }
    None
}

/// One item of a `concat` transform: a source field name and optional byte
/// bounds of the slice to take of it.
#[derive(Debug)]
pub struct Substring {
    pub source: String,
    pub start: Option<usize>,
    pub end: Option<usize>,
}

/// The abstract value of a substring item.
pub open spec fn substring_view(s: Substring) -> SubstringV {
    SubstringV { source: s.source@, start: s.start, end: s.end }
}

impl Substring {
    /// Parses a substring item from its textual form.
    #[verifier::loop_isolation(false)]
    #[verifier::rlimit(100)]
    pub fn new(input: &String) -> (r: Result<Substring, String>)
        ensures
            match r {
                Ok(sub) => spec_parse_substring(input@) == Some(substring_view(sub)),
                Err(e) => spec_parse_substring(input@) == Option::<SubstringV>::None && e@
                    == substring_err_msg(input@),
            },
    {
        let s = input.as_str();
        let n = s.unicode_len();
        proof {
            lemma_find_char(input@, '[');
        }
        let bi = scan_char(s, 0, '[');
        match bi {
            None => {
                proof {
                    assert(find_char(input@, '[') == -1);
                }
                if n > 0 {
                    let r = Substring { source: input.clone(), start: None, end: None };
                    proof {
                        assert(spec_parse_substring(input@) == Some(substring_view(r)));
                    }
                    Ok(r)
                } else {
                    Err(String::from_str("invalid format, use source[start..end]"))
                }
            },
            Some(b) => {
                proof {
                    assert(find_char(input@, '[') == b);
                }
                let ghost rest = input@.skip(b + 1);
                proof {
                    lemma_find_char(rest, ']');
                    assert(forall|i: int|
                        0 <= i < rest.len() ==> rest[i] == input@[i + b + 1]);
                }
                let ci = scan_char(s, b + 1, ']');
                match ci {
                    None => {
                        proof {
                            assert forall|i: int| 0 <= i < rest.len() implies rest[i] != ']' by {
                                assert(rest[i] == input@[i + b + 1]);
                            }
                            assert(find_char(rest, ']') == -1);
                        }
                        Err(bracket_err(input, b))
                    },
                    Some(cpos) => {
                        let ghost ci_rel = cpos - b - 1;
                        proof {
                            assert(rest[ci_rel] == ']');
                            assert forall|i: int| 0 <= i < ci_rel implies rest[i] != ']' by {
                                assert(rest[i] == input@[i + b + 1]);
                            }
                            assert(find_char(rest, ']') == ci_rel);
                        }
                        let ghost body = rest.take(ci_rel);
                        proof {
                            assert(forall|i: int|
                                0 <= i < body.len() ==> body[i] == input@[i + b + 1]);
                            lemma_digit_prefix(body);
                        }
                        // measure the digit prefix of the bracket body
                        let a = scan_digits(s, b + 1, cpos);
                        let ghost arel = a - b - 1;
                        proof {
                            if a < cpos {
                                assert(body[arel] == input@[a as int]);
                                assert(!is_digit(body[arel]));
                            }
                            assert forall|i: int| 0 <= i < arel implies is_digit(
                                #[trigger] body[i],
                            ) by {
                                assert(body[i] == input@[i + b + 1]);
                                assert(is_digit(s@[i + b + 1]));
                            }
                            assert(digit_prefix_len(body) == arel) by {
                                lemma_digit_prefix(body);
                                if digit_prefix_len(body) < arel {
                                    assert(is_digit(body[digit_prefix_len(body)]));
                                } else if digit_prefix_len(body) > arel {
                                    assert(arel < body.len());
                                    assert(is_digit(body[arel]));
                                }
                            }
                        }
                        // the two dots
                        if a + 1 >= cpos {
                            proof {
                                assert(body.len() < arel + 2);
                            }
                            return Err(bracket_err(input, b));
                        }
                        let dot1 = s.get_char(a);
                        let dot2 = s.get_char(a + 1);
                        if dot1 != '.' || dot2 != '.' {
                            proof {
                                assert(body[arel] == input@[a as int]);
                                assert(body[arel + 1] == input@[a + 1 as int]);
                            }
                            return Err(bracket_err(input, b));
                        }
                        proof {
                            assert(body[arel] == '.' && body[arel + 1] == '.');
                        }
                        // the end bound must be all digits
                        let k = scan_digits(s, a + 2, cpos);
                        if k < cpos {
                            proof {
                                assert(body[k - b - 1] == input@[k as int]);
                                assert(!is_digit(body.skip(arel + 2)[k - a - 2]));
                            }
                            return Err(bracket_err(input, b));
                        }
                        proof {
                            assert forall|i: int|
                                0 <= i < body.skip(arel + 2).len() implies is_digit(
                                #[trigger] body.skip(arel + 2)[i],
                            ) by {
                                assert(body.skip(arel + 2)[i] == body[i + arel + 2]);
                                assert(body[i + arel + 2] == input@[i + a + 2]);
                                assert(is_digit(s@[i + a + 2]));
                            }
                            assert(all_digits(body.skip(arel + 2)));
                            assert(body.take(arel) =~= input@.subrange(b + 1, a as int));
                            assert forall|i: int|
                                0 <= i < body.take(arel).len() implies is_digit(
                                #[trigger] body.take(arel)[i],
                            ) by {
                                assert(body.take(arel)[i] == body[i]);
                            }
                            assert(body.skip(arel + 2) =~= input@.subrange(a + 2 as int, cpos as int));
                        }
                        let start = scan_value(s, b + 1, a);
                        let end = scan_value(s, a + 2, cpos);
                        let source = String::from_str(s.substring_char(0, b));
                        proof {
                            assert(source@ =~= input@.take(b as int));
                        }
                        let r = Substring { source, start, end };
                        proof {
                            assert(substring_view(r).source == input@.take(b as int));
                            assert(spec_parse_substring(input@) =~~= Some(substring_view(r)));
                        }
                        Ok(r)
                    },
                }
            },
        }
    }
}


// ------------------------------------------------------------------
// The live transform.
// ------------------------------------------------------------------

/// A live `concat` transform.
#[derive(Debug)]
pub struct Concat {
    pub target: String,
    pub joiner: String,
    pub items: Vec<Substring>,
}

/// The byte slice one item takes of a field value: absent bounds default to
/// `0` and the full length, and bounds are clamped to the value.
pub open spec fn clip(b: Seq<u8>, start: Option<usize>, end: Option<usize>) -> Seq<u8> {
    let lo0: int = match start {
        Some(v) => v as int,
        None => 0,
    };
    let hi0: int = match end {
        Some(v) => v as int,
        None => b.len() as int,
    };
    let lo: int = if lo0 <= b.len() {
        lo0
    } else {
        b.len() as int
    };
    let hi: int = if hi0 <= b.len() {
        hi0
    } else {
        b.len() as int
    };
    if lo <= hi {
        b.subrange(lo, hi)
    } else {
        Seq::empty()
    }
}

/// The slices taken of the event's fields, in item order; items whose source
/// field is absent contribute nothing.
pub open spec fn concat_pieces(items: Seq<Substring>, m: Map<Seq<char>, Seq<u8>>) -> Seq<Seq<u8>>
    decreases items.len(),
{
    if items.len() == 0 {
        Seq::empty()
    } else {
        let rest = concat_pieces(items.drop_last(), m);
        let it = items.last();
        if m.contains_key(it.source@) {
            rest.push(clip(m[it.source@], it.start, it.end))
        } else {
            rest
        }
    }
}

/// The pieces joined with the separator.
pub open spec fn join_bytes(ps: Seq<Seq<u8>>, sep: Seq<u8>) -> Seq<u8>
    decreases ps.len(),
{
    if ps.len() == 0 {
        Seq::empty()
    } else if ps.len() == 1 {
        ps[0]
    } else {
        join_bytes(ps.drop_last(), sep) + sep + ps.last()
    }
}

/// The value the transform writes into its target field.
pub open spec fn concat_value(c: Concat, m: Map<Seq<char>, Seq<u8>>) -> Seq<u8> {
    join_bytes(concat_pieces(c.items@, m), encode_utf8(c.joiner@))
}

/// Clamped byte slice of a field value.
fn clip_exec(v: &Vec<u8>, start: Option<usize>, end: Option<usize>) -> (r: Vec<u8>)
    ensures
        r@ == clip(v@, start, end),
{
    let len = v.len();
    let lo0: usize = match start {
        Some(s) => s,
        None => 0,
    };
    let hi0: usize = match end {
        Some(e) => e,
        None => len,
    };
    let lo = if lo0 <= len {
        lo0
    } else {
        len
    };
    let hi = if hi0 <= len {
        hi0
    } else {
        len
    };
    let mut out: Vec<u8> = Vec::new();
    if lo <= hi {
        let mut i = lo;
        while i < hi
            invariant
                lo <= i <= hi <= v@.len(),
                out@ == v@.subrange(lo as int, i as int),
            decreases hi - i,
        {
            out.push(v[i]);
            proof {
                assert(out@ =~= v@.subrange(lo as int, i + 1 as int));
            }
            i += 1;
        }
    } else {
        proof {
            assert(out@ =~= clip(v@, start, end));
        }
    }
    out
}

/// Appends the bytes of `src` to `dst`.
fn push_bytes(dst: &mut Vec<u8>, src: &Vec<u8>)
    ensures
        final(dst)@ == old(dst)@ + src@,
{
    let mut i: usize = 0;
    while i < src.len()
        invariant
            i <= src@.len(),
            dst@ == old(dst)@ + src@.take(i as int),
        decreases src@.len() - i,
    {
        proof {
            assert(dst@ =~= old(dst)@ + src@.take(i as int));
        }
        dst.push(src[i]);
        proof {
            assert(dst@ =~= old(dst)@ + src@.take(i + 1 as int));
        }
        i += 1;
    }
    proof {
        assert(src@.take(src@.len() as int) =~= src@);
    }
}

/// The abstract values of a list of parsed items.
pub open spec fn substrings_view(s: Seq<Substring>) -> Seq<SubstringV> {
    s.map_values(|it: Substring| substring_view(it))
}

/// The abstract values of a list of byte buffers.
pub open spec fn bytes_views(s: Seq<Vec<u8>>) -> Seq<Seq<u8>> {
    s.map_values(|v: Vec<u8>| v@)
}

impl Concat {
    /// Assembles a live transform from its parts.
    pub fn new(target: String, joiner: String, items: Vec<Substring>) -> (c: Concat)
        ensures
            c == (Concat { target, joiner, items }),
    {
        Concat { target, joiner, items }
    }

    /// Applies the transform to one event: writes the joined slices into the
    /// target field and emits the modified event.
    pub fn transform(&self, event: Event) -> (r: Option<Event>)
        requires
            event.wf(),
        ensures
            match r {
                Some(out) => out.wf() && out.field_map() == event.field_map().insert(
                    self.target@,
                    concat_value(*self, event.field_map()),
                ),
                None => false,
            },
    {
        let ghost m = event.field_map();
        let mut parts: Vec<Vec<u8>> = Vec::new();
        let mut i: usize = 0;
        proof {
            assert(bytes_views(parts@) =~= concat_pieces(self.items@.take(0), m));
        }
        while i < self.items.len()
            invariant
                event.wf(),
                m == event.field_map(),
                i <= self.items@.len(),
                bytes_views(parts@) == concat_pieces(self.items@.take(i as int), m),
            decreases self.items@.len() - i,
        {
            proof {
                assert(self.items@.take(i + 1 as int).drop_last() =~= self.items@.take(i as int));
                assert(self.items@.take(i + 1 as int).last() == self.items@[i as int]);
            }
            match event.get_field(&self.items[i].source) {
                Some(v) => {
                    let piece = clip_exec(v, self.items[i].start, self.items[i].end);
                    parts.push(piece);
                    proof {
                        assert(bytes_views(parts@) =~= concat_pieces(
                            self.items@.take(i + 1 as int),
                            m,
                        ));
                    }
                },
                None => {
                    proof {
                        assert(bytes_views(parts@) =~= concat_pieces(
                            self.items@.take(i + 1 as int),
                            m,
                        ));
                    }
                },
            }
            i += 1;
        }
        proof {
            assert(self.items@.take(self.items@.len() as int) =~= self.items@);
        }
        let sep = self.joiner.as_str().as_bytes_vec();
        let mut value: Vec<u8> = Vec::new();
        let mut j: usize = 0;
        while j < parts.len()
            invariant
                sep@ == encode_utf8(self.joiner@),
                bytes_views(parts@) == concat_pieces(self.items@, m),
                j <= parts@.len(),
                value@ == join_bytes(bytes_views(parts@).take(j as int), sep@),
            decreases parts@.len() - j,
        {
            proof {
                assert(bytes_views(parts@).take(j + 1 as int).drop_last() =~= bytes_views(
                    parts@,
                ).take(j as int));
                assert(bytes_views(parts@).take(j + 1 as int).last() == parts@[j as int]@);
            }
            if j > 0 {
                push_bytes(&mut value, &sep);
            }
            push_bytes(&mut value, &parts[j]);
            proof {
                if j == 0 {
                    assert(value@ =~= join_bytes(bytes_views(parts@).take(1), sep@));
                } else {
                    assert(value@ =~= join_bytes(bytes_views(parts@).take(j + 1 as int), sep@));
                }
            }
            j += 1;
        }
        proof {
            assert(bytes_views(parts@).take(parts@.len() as int) =~= bytes_views(parts@));
        }
        let mut out = event;
        out.set_field(&self.target, value);
        Some(out)
    }
}

/// The result of parsing the items from position `i` on: the first failing
/// item's error, or all the parsed items.
pub open spec fn spec_parse_items_from(items: Seq<String>, i: int) -> Result<
    Seq<SubstringV>,
    Seq<char>,
>
    decreases items.len() - i when 0 <= i <= items.len()
{
    if i >= items.len() {
        Ok(Seq::empty())
    } else {
        match spec_parse_substring(items[i]@) {
            None => Err(substring_err_msg(items[i]@)),
            Some(v) => match spec_parse_items_from(items, i + 1) {
                Ok(rest) => Ok(seq![v] + rest),
                Err(e) => Err(e),
            },
        }
    }
}

/// The inert configuration record of a `concat` transform.
pub struct ConcatConfig {
    pub target: String,
    pub joiner: String,
    pub items: Vec<String>,
}

impl ConcatConfig {
    /// Builds the live transform, parsing every item; the first malformed
    /// item is the build error.
    pub fn build(&self) -> (r: Result<Concat, String>)
        ensures
            match r {
                Ok(c) => spec_parse_items_from(self.items@, 0) == Ok::<_, Seq<char>>(
                    substrings_view(c.items@),
                ) && c.target@ == self.target@ && c.joiner@ == self.joiner@,
                Err(e) => spec_parse_items_from(self.items@, 0) == Err::<Seq<SubstringV>, _>(e@),
            },
    {
        let mut parsed: Vec<Substring> = Vec::new();
        let mut err: Option<String> = None;
        let mut i: usize = self.items.len();
        proof {
            assert(substrings_view(parsed@) =~= Seq::<SubstringV>::empty());
        }
        while i > 0
            invariant
                i <= self.items@.len(),
                match err {
                    Some(e) => spec_parse_items_from(self.items@, i as int) == Err::<
                        Seq<SubstringV>,
                        _,
                    >(e@),
                    None => spec_parse_items_from(self.items@, i as int) == Ok::<_, Seq<char>>(
                        substrings_view(parsed@),
                    ),
                },
            decreases i,
        {
            i -= 1;
            match Substring::new(&self.items[i]) {
                Ok(sub) => {
                    proof {
                        assert(spec_parse_substring(self.items@[i as int]@) == Some(
                            substring_view(sub),
                        ));
                    }
                    match &err {
                        Some(_) => {
                            proof {
                                let prev = spec_parse_items_from(self.items@, i + 1);
                                assert(prev is Err);
                                assert(spec_parse_items_from(self.items@, i as int) == prev);
                            }
                        },
                        None => {
                            let ghost parsed0 = parsed@;
                            let ghost subv = substring_view(sub);
                            parsed.insert(0, sub);
                            proof {
                                assert(parsed@[0] == parsed0.insert(0, parsed@[0])[0]);
                                assert(substring_view(parsed@[0]) == subv);
                                assert(parsed@.drop_first() =~= parsed0);
                                assert forall|k: int|
                                    0 <= k < parsed@.len() implies substrings_view(parsed@)[k]
                                    == (seq![subv] + substrings_view(parsed0))[k] by {
                                    if k > 0 {
                                        assert(parsed@[k] == parsed0[k - 1]);
                                    }
                                }
                                assert(substrings_view(parsed@) =~= seq![subv] + substrings_view(
                                    parsed0,
                                ));
                                assert(spec_parse_items_from(self.items@, i as int) == Ok::<
                                    _,
                                    Seq<char>,
                                >(substrings_view(parsed@)));
                            }
                        },
                    }
                },
                Err(e) => {
                    proof {
                        assert(spec_parse_substring(self.items@[i as int]@) == Option::<
                            SubstringV,
                        >::None);
                        assert(e@ == substring_err_msg(self.items@[i as int]@));
                        assert(spec_parse_items_from(self.items@, i as int) == Err::<
                            Seq<SubstringV>,
                            _,
                        >(e@));
                    }
                    parsed = Vec::new();
                    err = Some(e);
                    proof {
                        assert(substrings_view(parsed@) =~= Seq::<SubstringV>::empty());
                    }
                },
            }
        }
        match err {
            Some(e) => Err(e),
            None => Ok(Concat::new(self.target.clone(), self.joiner.clone(), parsed)),
        }
    }
}

} // verus!
