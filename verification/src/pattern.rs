//! The selection mini-language: a pattern is a comma-separated list of
//! clauses, each clause either a single 1-based position `N` or a closed
//! interval `A-B` (both bounds inclusive). Digits are base-10; no
//! whitespace is tolerated. A bound larger than `u32::MAX`, an empty
//! clause, a clause with more than one hyphen, or any non-digit character
//! makes the whole pattern malformed.

use vstd::prelude::*;
use vstd::string::*;

verus! {

/// One parsed clause: the closed interval of 1-based positions
/// `[start, end]`. `start > end` is allowed at parse time and denotes the
/// empty selection; `start == 0` never selects anything, since positions
/// are 1-based.
#[derive(Debug, Copy, Clone, PartialEq, Eq, Structural)]
pub struct Span {
    pub start: u32,
    pub end: u32,
}

impl Span {
    pub fn new(start: u32, end: u32) -> (s: Span)
        ensures
            s == (Span { start, end }),
    {
        Span { start, end }
    }
}

/// The one error the engine itself can produce: the pattern string does
/// not follow the `N` / `A-B` comma-separated syntax.
#[derive(Debug, PartialEq, Eq, Structural)]
pub enum Error {
    ParsePatternError,
}

/// The base-10 digits.
pub open spec fn is_digit_char(c: char) -> bool {
    48 <= c as u32 && c as u32 <= 57
}

/// Numeric value of one digit character.
pub open spec fn digit_value(c: char) -> nat {
    (c as u32 - 48) as nat
}

pub open spec fn all_digits(s: Seq<char>) -> bool {
    forall|i: int| 0 <= i < s.len() ==> is_digit_char(#[trigger] s[i])
}

/// The number a digit string denotes, most significant digit first.
pub open spec fn digits_value(s: Seq<char>) -> nat
    decreases s.len(),
{
    if s.len() == 0 {
        0
    } else {
        digits_value(s.drop_last()) * 10 + digit_value(s.last())
    }
}

/// A token that parses as a `u32`: nonempty, digits only, value in range.
pub open spec fn is_u32_digits(s: Seq<char>) -> bool {
    s.len() > 0 && all_digits(s) && digits_value(s) <= u32::MAX
}

/// How `str::split` divides a string at a separator: one piece more than
/// there are separators, in order, each piece free of the separator.
/// The empty string yields the single empty piece.
pub open spec fn split_on(s: Seq<char>, sep: char) -> Seq<Seq<char>>
    decreases s.len(),
{
    if s.len() == 0 {
        seq![Seq::<char>::empty()]
    } else if s[0] == sep {
        seq![Seq::<char>::empty()] + split_on(s.skip(1), sep)
    } else {
        let rest = split_on(s.skip(1), sep);
        seq![seq![s[0]] + rest[0]] + rest.skip(1)
    }
}

/// A clause of the form `N`.
pub open spec fn is_single_clause(s: Seq<char>) -> bool {
    is_u32_digits(s)
}

/// Whether `i` is a hyphen position that splits `s` into two numbers.
pub open spec fn splits_as_pair(s: Seq<char>, i: int) -> bool {
    &&& 0 <= i < s.len()
    &&& s[i] == '-'
    &&& is_u32_digits(s.take(i))
    &&& is_u32_digits(s.skip(i + 1))
}

/// A clause of the form `A-B`.
pub open spec fn is_pair_clause(s: Seq<char>) -> bool {
    exists|i: int| splits_as_pair(s, i)
}

/// A well-formed clause is one of the two forms. The forms exclude each
/// other: a single clause is all digits and so holds no hyphen.
pub open spec fn clause_ok(s: Seq<char>) -> bool {
    is_single_clause(s) || is_pair_clause(s)
}

/// The selection a well-formed clause denotes.
pub open spec fn clause_span(s: Seq<char>) -> Span {
    if is_single_clause(s) {
        Span { start: digits_value(s) as u32, end: digits_value(s) as u32 }
    } else {
        let i = choose|i: int| splits_as_pair(s, i);
        Span { start: digits_value(s.take(i)) as u32, end: digits_value(s.skip(i + 1)) as u32 }
    }
}

/// The clauses of a pattern: the comma-separated pieces.
pub open spec fn pattern_clauses(s: Seq<char>) -> Seq<Seq<char>> {
    split_on(s, ',')
}

/// A pattern is well-formed when every clause is.
pub open spec fn pattern_ok(s: Seq<char>) -> bool {
    forall|k: int|
        0 <= k < pattern_clauses(s).len() ==> clause_ok(#[trigger] pattern_clauses(s)[k])
}

/// The selections a well-formed pattern denotes, clause by clause.
pub open spec fn pattern_spans(s: Seq<char>) -> Seq<Span> {
    pattern_clauses(s).map_values(|c: Seq<char>| clause_span(c))
}

/// Splitting at the first separator occurrence: if no separator stands
/// before `i`, and `i` is a separator (or the end), the split is the piece
/// before `i` followed by the split of what comes after it.
pub(crate) proof fn lemma_split_on_first(s: Seq<char>, sep: char, i: int)
    requires
        0 <= i <= s.len(),
        forall|j: int| 0 <= j < i ==> s[j] != sep,
        i < s.len() ==> s[i] == sep,
    ensures
        i == s.len() ==> split_on(s, sep) == seq![s],
        i < s.len() ==> split_on(s, sep) == seq![s.take(i)] + split_on(s.skip(i + 1), sep),
    decreases i, s.len(),
{
    if i == 0 {
        if s.len() == 0 {
            assert(s.take(0) =~= s);
            assert(s =~= Seq::<char>::empty());
        } else {
            assert(s.take(0) =~= Seq::<char>::empty());
            assert(s.skip(1) =~= s.skip(0int + 1));
        }
    } else {
        let t = s.skip(1);
        assert(forall|j: int| 0 <= j < i - 1 ==> t[j] == s[j + 1] && t[j] != sep);
        lemma_split_on_first(t, sep, i - 1);
        let rest = split_on(t, sep);
        if i == s.len() {
            assert(rest == seq![t]);
            assert(seq![s[0]] + t =~= s);
            assert(rest.skip(1) =~= Seq::<Seq<char>>::empty());
            assert(split_on(s, sep) =~= seq![s]);
        } else {
            assert(rest == seq![t.take(i - 1)] + split_on(t.skip(i), sep));
            assert(rest[0] == t.take(i - 1));
            assert(seq![s[0]] + t.take(i - 1) =~= s.take(i));
            assert(rest.skip(1) =~= split_on(t.skip(i), sep));
            assert(t.skip(i) =~= s.skip(i + 1));
            assert(split_on(s, sep) =~= seq![s.take(i)] + split_on(s.skip(i + 1), sep));
        }
    }
}

/// Extending a digit prefix by one character multiplies its value by ten.
proof fn lemma_digits_value_take_succ(s: Seq<char>, m: int)
    requires
        0 <= m < s.len(),
    ensures
        digits_value(s.take(m + 1)) == digits_value(s.take(m)) * 10 + digit_value(s[m]),
{
    assert(s.take(m + 1).drop_last() =~= s.take(m));
    assert(s.take(m + 1).last() == s[m]);
}

/// A digit string is worth at least any of its prefixes.
proof fn lemma_digits_value_monotone(s: Seq<char>, m: int)
    requires
        0 <= m <= s.len(),
    ensures
        digits_value(s.take(m)) <= digits_value(s),
    decreases s.len() - m,
{
    if m == s.len() {
        assert(s.take(m) =~= s);
    } else {
        lemma_digits_value_take_succ(s, m);
        lemma_digits_value_monotone(s, m + 1);
    }
}

/// Collects the characters of a string into a vector.
fn chars_of(s: &str) -> (r: Vec<char>)
    ensures
        r@ == s@,
{
    let n = s.unicode_len();
    let mut v: Vec<char> = Vec::new();
    let mut i: usize = 0;
    while i < n
        invariant
            n == s@.len(),
            i <= n,
            v@ == s@.take(i as int),
        decreases n - i,
    {
        let c = s.get_char(i);
        v.push(c);
        i = i + 1;
        proof {
            assert(v@ =~= s@.take(i as int));
        }
    }
    proof {
        assert(s@.take(n as int) =~= s@);
    }
    v
}

/// First occurrence of `sep` in `v[lo..hi]`, or `hi` when there is none.
fn find_in(v: &Vec<char>, lo: usize, hi: usize, sep: char) -> (r: usize)
    requires
        lo <= hi <= v@.len(),
    ensures
        lo <= r <= hi,
        forall|j: int| lo <= j < r ==> v@[j] != sep,
        r < hi ==> v@[r as int] == sep,
{
    let mut k = lo;
    while k < hi
        invariant
            lo <= k <= hi <= v@.len(),
            forall|j: int| lo <= j < k ==> v@[j] != sep,
        decreases hi - k,
    {
        if v[k] == sep {
            return k;
        }
        k = k + 1;
    }
    k
}

/// Reads `v[lo..hi]` as a base-10 `u32`, exactly as the grammar defines a
/// numeric token: it fails on an empty token, a non-digit, or a value
/// beyond `u32::MAX`.
fn parse_number(v: &Vec<char>, lo: usize, hi: usize) -> (r: Option<u32>)
    requires
        lo <= hi <= v@.len(),
    ensures
        r is Some <==> is_u32_digits(v@.subrange(lo as int, hi as int)),
        r matches Some(n) ==> n as nat == digits_value(v@.subrange(lo as int, hi as int)),
{
    let ghost s = v@.subrange(lo as int, hi as int);
    if lo == hi {
        return None;
    }
    let mut acc: u32 = 0;
    let mut k = lo;
    while k < hi
        invariant
            lo <= k <= hi <= v@.len(),
            s == v@.subrange(lo as int, hi as int),
            all_digits(s.take(k - lo)),
            acc as nat == digits_value(s.take(k - lo)),
        decreases hi - k,
    {
        let c = v[k];
        let code = c as u32;
        proof {
            assert(s[k - lo] == v@[k as int]);
        }
        if code < 48 || code > 57 {
            proof {
                assert(!is_digit_char(s[k - lo]));
            }
            return None;
        }
        let d = code - 48;
        proof {
            assert(is_digit_char(s[k - lo]));
            lemma_digits_value_take_succ(s, k - lo);
            assert(d as nat == digit_value(s[k - lo]));
        }
        if acc > (u32::MAX - d) / 10 {
            proof {
                assert(acc as int * 10 + d as int > u32::MAX as int) by (nonlinear_arith)
                    requires
                        acc as int > (u32::MAX as int - d as int) / 10,
                        0 <= d as int <= 9,
                        acc as int >= 0,
                ;
                lemma_digits_value_monotone(s, k - lo + 1);
            }
            return None;
        }
        proof {
            assert(acc as int * 10 + d as int <= u32::MAX as int) by (nonlinear_arith)
                requires
                    acc as int <= (u32::MAX as int - d as int) / 10,
                    0 <= d as int <= 9,
                    acc as int >= 0,
            ;
        }
        acc = acc * 10 + d;
        k = k + 1;
        proof {
            assert forall|j: int| 0 <= j < k - lo implies is_digit_char(
                #[trigger] s.take(k - lo)[j],
            ) by {
                assert(s.take(k - lo)[j] == s[j]);
                if j < k - 1 - lo {
                    assert(s.take(k - 1 - lo)[j] == s[j]);
                }
            }
            assert(all_digits(s.take(k - lo)));
        }
    }
    proof {
        assert(s.take(k - lo) =~= s);
    }
    Some(acc)
}

/// Parses one clause `v[lo..hi]`: a plain number, or two numbers joined by
/// a single hyphen.
fn parse_clause(v: &Vec<char>, lo: usize, hi: usize) -> (r: Option<Span>)
    requires
        lo <= hi <= v@.len(),
    ensures
        r is Some <==> clause_ok(v@.subrange(lo as int, hi as int)),
        r matches Some(sp) ==> sp == clause_span(v@.subrange(lo as int, hi as int)),
{
    let ghost s = v@.subrange(lo as int, hi as int);
    let d = find_in(v, lo, hi, '-');
    if d == hi {
        proof {
            assert forall|i: int| !splits_as_pair(s, i) by {
                if 0 <= i < s.len() {
                    assert(s[i] == v@[lo + i]);
                }
            }
        }
        match parse_number(v, lo, hi) {
            Some(n) => Some(Span { start: n, end: n }),
            None => None,
        }
    } else {
        let ghost i0 = d - lo;
        proof {
            assert(s[i0] == v@[d as int]);
            assert(!is_digit_char(s[i0]));
            assert(!is_single_clause(s));
            assert(v@.subrange(lo as int, d as int) =~= s.take(i0));
            assert(v@.subrange(d as int + 1, hi as int) =~= s.skip(i0 + 1));
            // the first hyphen is the only place a pair clause can split
            assert forall|i: int| splits_as_pair(s, i) implies i == i0 by {
                if i < i0 {
                    assert(s[i] == v@[lo + i]);
                } else if i > i0 {
                    assert(s.take(i)[i0] == '-');
                    assert(!all_digits(s.take(i)));
                }
            }
        }
        let a = parse_number(v, lo, d);
        let b = parse_number(v, d + 1, hi);
        match (a, b) {
            (Some(x), Some(y)) => {
                proof {
                    assert(splits_as_pair(s, i0));
                    let iw = choose|i: int| splits_as_pair(s, i);
                    assert(iw == i0);
                }
                Some(Span { start: x, end: y })
            },
            _ => {
                proof {
                    assert(!is_pair_clause(s));
                }
                None
            },
        }
    }
}

/// Parses a selection pattern such as `1-6,13,7-9` into its clauses'
/// ranges, in order of appearance. The result is `Ok` exactly when every
/// comma-separated clause follows the grammar; a single malformed clause
/// rejects the whole pattern, with no partial result.
pub fn parse_pattern(pattern: &str) -> (r: Result<Vec<Span>, Error>)
    ensures
        r is Ok <==> pattern_ok(pattern@),
        r matches Ok(spans) ==> spans@ == pattern_spans(pattern@),
        r matches Err(e) ==> e == Error::ParsePatternError,
{
    let v = chars_of(pattern);
    let n = v.len();
    let ghost s = pattern@;
    let mut spans: Vec<Span> = Vec::new();
    let mut lo: usize = 0;
    let ghost mut done: Seq<Seq<char>> = Seq::empty();
    proof {
        assert(s.skip(0int) =~= s);
        assert(done + split_on(s, ',') =~= split_on(s, ','));
    }
    loop
        invariant_except_break
            pattern_clauses(s) == done + split_on(s.skip(lo as int), ','),
        invariant
            s == pattern@,
            v@ == s,
            n == s.len(),
            lo <= n,
            spans@.len() == done.len(),
            forall|j: int|
                0 <= j < done.len() ==> clause_ok(#[trigger] done[j]) && spans@[j]
                    == clause_span(done[j]),
        ensures
            pattern_ok(s),
            spans@ == pattern_spans(s),
        decreases n - lo,
    {
        let comma = find_in(&v, lo, n, ',');
        let ghost cl = s.subrange(lo as int, comma as int);
        proof {
            let rem = s.skip(lo as int);
            assert(forall|j: int|
                0 <= j < comma - lo ==> rem[j] == s[lo + j] && rem[j] != ',');
            assert(comma < n ==> rem[comma - lo] == s[comma as int]);
            lemma_split_on_first(rem, ',', comma - lo);
            assert(rem.take(comma - lo) =~= cl);
            assert(rem =~= s.subrange(lo as int, n as int));
            if comma == n {
                assert(split_on(rem, ',') == seq![cl]);
            } else {
                assert(rem.skip(comma - lo + 1) =~= s.skip(comma + 1));
                assert(split_on(rem, ',') == seq![cl] + split_on(s.skip(comma + 1), ','));
            }
            assert(pattern_clauses(s)[done.len() as int] == cl);
        }
        match parse_clause(&v, lo, comma) {
            None => {
                proof {
                    assert(pattern_clauses(s).len() > done.len());
                    assert(!clause_ok(pattern_clauses(s)[done.len() as int]));
                    assert(!pattern_ok(s));
                }
                return Err(Error::ParsePatternError);
            },
            Some(sp) => {
                spans.push(sp);
                proof {
                    done = done.push(cl);
                }
            },
        }
        if comma == n {
            proof {
                assert(pattern_clauses(s) =~= done);
                assert(spans@ =~= pattern_spans(s));
            }
            break;
        }
        lo = comma + 1;
        proof {
            assert(pattern_clauses(s) =~= done + split_on(s.skip(lo as int), ','));
        }
    }
    Ok(spans)
}

} // verus!
