//! Parsing of textual interval notation into a typed bounded range.
//!
//! The grammar is exact: `<open><value>,<value><close>` with `<open>` one of
//! `[` (included) or `(` (excluded), `<close>` one of `]` (included) or `)`
//! (excluded), and exactly one comma between the two delimiters. Each value
//! is a human-readable byte quantity such as `1KB` or `10MB`, read with
//! decimal units. Values whose own text contains a comma are deliberately
//! unsupported.

use vstd::prelude::*;

verus! {

/// One end of a range, tagged included or excluded, over a byte count.
#[derive(Clone, Copy, Debug, PartialEq, Eq, Structural)]
pub enum Bound {
    /// An excluded bound.
    Excluded(u64),
    /// An included bound.
    Included(u64),
}

/// A range bounded on both ends, each end independently included or
/// excluded. Both ends are mandatory in the supported grammar.
#[derive(Clone, Copy, Debug, PartialEq, Eq, Structural)]
pub struct BoundedRange {
    pub start: Bound,
    pub end: Bound,
}

/// Why a range failed to parse.
#[derive(Debug, PartialEq, Eq)]
pub enum BoundedRangeParseError {
    /// A value between the delimiters was not a readable byte quantity;
    /// carries the underlying parser's message.
    ValueError(String),
    /// The text does not begin with `[` or `(`.
    MissingStartBound,
    /// More than one comma lies between the delimiters.
    MoreThanOneComma,
    /// No comma lies between the delimiters.
    LessThanOneComma,
    /// The text does not end with `]` or `)`.
    MissingEndBound,
}

impl BoundedRangeParseError {
    /// A human-readable description of the failure.
    pub fn message(&self) -> (r: String)
        ensures
            match self {
                BoundedRangeParseError::ValueError(m) => r@ == m@,
                BoundedRangeParseError::MissingStartBound => r@ == "Expected start bound to be [ or ("@,
                BoundedRangeParseError::MoreThanOneComma => r@
                    == "Expected to find one comma, but found more than one comma"@,
                BoundedRangeParseError::LessThanOneComma => r@
                    == "Expected to find one comma, but found less than one comma"@,
                BoundedRangeParseError::MissingEndBound => r@ == "Expected end bound to be ] or )"@,
            },
    {
        match self {
            BoundedRangeParseError::ValueError(m) => m.clone(),
            BoundedRangeParseError::MissingStartBound => String::from_str(
                "Expected start bound to be [ or (",
            ),
            BoundedRangeParseError::MoreThanOneComma => String::from_str(
                "Expected to find one comma, but found more than one comma",
            ),
            BoundedRangeParseError::LessThanOneComma => String::from_str(
                "Expected to find one comma, but found less than one comma",
            ),
            BoundedRangeParseError::MissingEndBound => String::from_str(
                "Expected end bound to be ] or )",
            ),
        }
    }
}

/// What bytesize's textual parser yields on a given text: the byte count
/// for a readable quantity, nothing for a rejected text.
pub uninterp spec fn parsed_byte_size(s: Seq<char>) -> Option<u64>;

/// Relies on `bytesize::ByteSize`'s `FromStr` parser to read a
/// human-readable byte quantity (`4733`, `1KB`, `10 MiB`); the outcome
/// depends on the text alone. `as_u64` only unwraps the parsed count.
#[verifier::external_body]
fn parse_byte_size(s: &str) -> (r: Result<u64, String>)
    ensures
        match r {
            Ok(v) => parsed_byte_size(s@) == Some(v),
            Err(_) => parsed_byte_size(s@) is None,
        },
{
    match s.parse::<bytesize::ByteSize>() {
        Ok(b) => Ok(b.as_u64()),
        Err(e) => Err(e),
    }
}

/// How many commas a text holds.
pub open spec fn comma_count(s: Seq<char>) -> nat
    decreases s.len(),
{
    if s.len() == 0 {
        0
    } else {
        comma_count(s.drop_last()) + (if s.last() == ',' {
            1nat
        } else {
            0nat
        })
    }
}

proof fn lemma_one_comma(s: Seq<char>, a: int)
    requires
        0 <= a < s.len(),
        s[a] == ',',
    ensures
        comma_count(s) >= 1,
    decreases s.len(),
{
    if a < s.len() - 1 {
        lemma_one_comma(s.drop_last(), a);
    }
}

proof fn lemma_two_commas(s: Seq<char>, a: int, b: int)
    requires
        0 <= a < b < s.len(),
        s[a] == ',',
        s[b] == ',',
    ensures
        comma_count(s) >= 2,
    decreases s.len(),
{
    if b == s.len() - 1 {
        lemma_one_comma(s.drop_last(), a);
    } else {
        lemma_two_commas(s.drop_last(), a, b);
    }
}

/// Finds the single comma of the text. The returned position is shifted up
/// by one, pointing at the comma of the enclosing interval text whose
/// interior this text is.
pub fn find_index_of_only_comma(s: &str) -> (r: Result<usize, BoundedRangeParseError>)
    ensures
        match r {
            Ok(i) => comma_count(s@) == 1 && 1 <= i <= s@.len() && s@[i - 1] == ','
                && (forall|j: int| 0 <= j < s@.len() && j != i - 1 ==> s@[j] != ','),
            Err(BoundedRangeParseError::MoreThanOneComma) => comma_count(s@) >= 2,
            Err(BoundedRangeParseError::LessThanOneComma) => comma_count(s@) == 0,
            Err(_) => false,
        },
{
    let n = s.unicode_len();
    let mut comma: Option<usize> = None;
    let mut k: usize = 0;
    while k < n
        invariant
            k <= n,
            n == s@.len(),
            match comma {
                None => comma_count(s@.take(k as int)) == 0,
                Some(c) => 1 <= c <= k && s@[c - 1] == ',' && comma_count(s@.take(k as int)) == 1,
            },
        decreases n - k,
    {
        let ch = s.get_char(k);
        proof {
            assert(s@.take(k + 1).drop_last() =~= s@.take(k as int));
            assert(s@.take(k + 1).last() == s@[k as int]);
        }
        if ch == ',' {
            if let Some(c) = comma {
                proof {
                    lemma_two_commas(s@, c - 1, k as int);
                }
                return Err(BoundedRangeParseError::MoreThanOneComma);
            }
            comma = Some(k + 1);
        }
        k = k + 1;
    }
    proof {
        assert(s@.take(n as int) =~= s@);
    }
    match comma {
        Some(i) => {
            proof {
                assert forall|j: int| 0 <= j < s@.len() && j != i - 1 implies s@[j] != ',' by {
                    if s@[j] == ',' {
                        if j < i - 1 {
                            lemma_two_commas(s@, j, i - 1);
                        } else {
                            lemma_two_commas(s@, i - 1, j);
                        }
                    }
                }
            }
            Ok(i)
        },
        None => Err(BoundedRangeParseError::LessThanOneComma),
    }
}

/// The span between the two delimiter characters.
pub open spec fn spec_interior(s: Seq<char>) -> Seq<char> {
    s.subrange(1, s.len() - 1)
}

/// The position of the interior's single comma, in the coordinates of the
/// whole text. Meaningful only when the interior holds exactly one comma.
pub open spec fn spec_comma(s: Seq<char>) -> int {
    1 + (choose|p: int| 0 <= p < spec_interior(s).len() && spec_interior(s)[p] == ',')
}

/// The text of the first value: between the opening delimiter and the comma.
pub open spec fn spec_first_text(s: Seq<char>) -> Seq<char> {
    s.subrange(1, spec_comma(s))
}

/// The text of the second value: between the comma and the closing delimiter.
pub open spec fn spec_second_text(s: Seq<char>) -> Seq<char> {
    s.subrange(spec_comma(s) + 1, s.len() - 1)
}

/// The opening delimiter is one of the two recognized symbols.
pub open spec fn spec_open_ok(s: Seq<char>) -> bool {
    s[0] == '[' || s[0] == '('
}

/// The closing delimiter is one of the two recognized symbols.
pub open spec fn spec_close_ok(s: Seq<char>) -> bool {
    s[s.len() - 1] == ']' || s[s.len() - 1] == ')'
}

/// The range the text denotes, when the whole grammar matches.
pub open spec fn spec_range_of(s: Seq<char>) -> BoundedRange {
    BoundedRange {
        start: if s[0] == '[' {
            Bound::Included(parsed_byte_size(spec_first_text(s))->0)
        } else {
            Bound::Excluded(parsed_byte_size(spec_first_text(s))->0)
        },
        end: if s[s.len() - 1] == ']' {
            Bound::Included(parsed_byte_size(spec_second_text(s))->0)
        } else {
            Bound::Excluded(parsed_byte_size(spec_second_text(s))->0)
        },
    }
}

/// Parses interval notation into a bounded range of byte counts.
///
/// Checks run in the order of the original grammar: the single comma is
/// located first, then the first value is read, then the opening delimiter
/// is validated, then the second value, then the closing delimiter; the
/// first failure wins.
pub fn try_from_str(s: &str) -> (r: Result<BoundedRange, BoundedRangeParseError>)
    requires
        s@.len() >= 2,
    ensures
        match r {
            Ok(br) => comma_count(spec_interior(s@)) == 1 && parsed_byte_size(
                spec_first_text(s@),
            ) is Some && spec_open_ok(s@) && parsed_byte_size(spec_second_text(s@)) is Some
                && spec_close_ok(s@) && br == spec_range_of(s@),
            Err(BoundedRangeParseError::LessThanOneComma) => comma_count(spec_interior(s@)) == 0,
            Err(BoundedRangeParseError::MoreThanOneComma) => comma_count(spec_interior(s@)) >= 2,
            Err(BoundedRangeParseError::ValueError(_)) => comma_count(spec_interior(s@)) == 1 && (
            parsed_byte_size(spec_first_text(s@)) is None || (parsed_byte_size(
                spec_first_text(s@),
            ) is Some && spec_open_ok(s@) && parsed_byte_size(spec_second_text(s@)) is None)),
            Err(BoundedRangeParseError::MissingStartBound) => comma_count(spec_interior(s@)) == 1
                && parsed_byte_size(spec_first_text(s@)) is Some && !spec_open_ok(s@),
            Err(BoundedRangeParseError::MissingEndBound) => comma_count(spec_interior(s@)) == 1
                && parsed_byte_size(spec_first_text(s@)) is Some && spec_open_ok(s@)
                && parsed_byte_size(spec_second_text(s@)) is Some && !spec_close_ok(s@),
        },
{
    let n = s.unicode_len();
    let middle = s.substring_char(1, n - 1);
    let index = match find_index_of_only_comma(middle) {
        Ok(i) => i,
        Err(e) => {
            return Err(e);
        },
    };
    proof {
        let mid = spec_interior(s@);
        assert(mid =~= middle@);
        assert(0 <= index - 1 < mid.len() && mid[index - 1] == ',');
        let p = choose|p: int| 0 <= p < mid.len() && mid[p] == ',';
        assert(mid[p] == ',');
        assert(p == index - 1);
        assert(spec_comma(s@) == index);
    }
    let first = s.substring_char(1, index);
    proof {
        assert(first@ =~= spec_first_text(s@));
    }
    let value = match parse_byte_size(first) {
        Ok(v) => v,
        Err(e) => {
            return Err(BoundedRangeParseError::ValueError(e));
        },
    };
    let c0 = s.get_char(0);
    let start = if c0 == '[' {
        Bound::Included(value)
    } else if c0 == '(' {
        Bound::Excluded(value)
    } else {
        return Err(BoundedRangeParseError::MissingStartBound);
    };
    let second = s.substring_char(index + 1, n - 1);
    proof {
        assert(second@ =~= spec_second_text(s@));
    }
    let value = match parse_byte_size(second) {
        Ok(v) => v,
        Err(e) => {
            return Err(BoundedRangeParseError::ValueError(e));
        },
    };
    let cn = s.get_char(n - 1);
    let end = if cn == ']' {
        Bound::Included(value)
    } else if cn == ')' {
        Bound::Excluded(value)
    } else {
        return Err(BoundedRangeParseError::MissingEndBound);
    };
    Ok(BoundedRange { start, end })
}

impl BoundedRange {
    /// The equivalent half-open interval `lo..hi` of byte counts: an
    /// excluded start moves up one step, an included end moves up one step.
    pub fn to_half_open(&self) -> (r: (u64, u64))
        requires
            self.start matches Bound::Excluded(v) ==> v < u64::MAX,
            self.end matches Bound::Included(v) ==> v < u64::MAX,
        ensures
            r.0 == match self.start {
                Bound::Included(v) => v as int,
                Bound::Excluded(v) => v + 1,
            },
            r.1 == match self.end {
                Bound::Included(v) => v + 1,
                Bound::Excluded(v) => v as int,
            },
    {
        let lo = match self.start {
            Bound::Included(v) => v,
            Bound::Excluded(v) => v + 1,
        };
        let hi = match self.end {
            Bound::Included(v) => v + 1,
            Bound::Excluded(v) => v,
        };
        (lo, hi)
    }
}

} // verus!
