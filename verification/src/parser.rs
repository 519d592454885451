use vstd::prelude::*;
use vstd::string::StringSliceAdditionalSpecFns;
use crate::eval::{item_wf, line_wf, Item, Line, Operator};
use crate::rational::Rational;

verus! {

/// Parsing failed: some position of the line starts no recognizable token.
/// The cause is not told apart further; the whole line is rejected.
#[derive(Clone, Copy, Debug, PartialEq, Eq, Structural)]
pub struct ParseError;

/// Whitespace accepted around tokens: space, tab, carriage return, newline.
pub open spec fn is_space(c: u8) -> bool {
    c == 32 || c == 9 || c == 13 || c == 10
}

/// A decimal digit byte.
pub open spec fn is_digit(c: u8) -> bool {
    48 <= c <= 57
}

/// A sign byte: `+` or `-`.
pub open spec fn is_sign(c: u8) -> bool {
    c == 43 || c == 45
}

/// The operator written as byte `c`, if any, over the closed alphabet
/// `{+, *, -, S, ^, c, /}`.
pub open spec fn spec_operator(c: u8) -> Option<Operator> {
    if c == 43 {
        Some(Operator::Add)
    } else if c == 42 {
        Some(Operator::Multiply)
    } else if c == 45 {
        Some(Operator::Subtract)
    } else if c == 83 {
        Some(Operator::Sum)
    } else if c == 94 {
        Some(Operator::Power)
    } else if c == 99 {
        Some(Operator::Clear)
    } else if c == 47 {
        Some(Operator::Divide)
    } else {
        None
    }
}

/// The length of the run of decimal digits at the front of `s`.
pub open spec fn digit_run(s: Seq<u8>) -> int
    decreases s.len(),
{
    if s.len() == 0 || !is_digit(s[0]) {
        0
    } else {
        1 + digit_run(s.skip(1))
    }
}

/// The value of the first `n` bytes of `s` read as a decimal numeral.
pub open spec fn digits_value(s: Seq<u8>, n: int) -> int
    decreases n,
{
    if n <= 0 {
        0
    } else {
        digits_value(s, n - 1) * 10 + (s[n - 1] - 48)
    }
}

/// The length in bytes of the signed integer literal at the front of `s`: an
/// optional sign followed by one or more digits, digits taken greedily; 0
/// where there is none.
pub open spec fn literal_len(s: Seq<u8>) -> int {
    if s.len() == 0 {
        0
    } else if is_digit(s[0]) {
        digit_run(s)
    } else if is_sign(s[0]) && digit_run(s.skip(1)) > 0 {
        1 + digit_run(s.skip(1))
    } else {
        0
    }
}

/// The value of the literal at the front of `s` (meaningful where
/// `literal_len(s) > 0`).
pub open spec fn literal_value(s: Seq<u8>) -> int {
    if s.len() > 0 && is_sign(s[0]) {
        let m = digits_value(s.skip(1), digit_run(s.skip(1)));
        if s[0] == 45 {
            -m
        } else {
            m
        }
    } else {
        digits_value(s, digit_run(s))
    }
}

/// The token at the front of `s` with its length in bytes. A signed literal
/// is tried first; only one whose value fits an `i64` is a number. Failing
/// that, a single operator byte is read (so after an overflowing literal a
/// leading sign byte is still read as an operator, though the digits after it
/// then fail the line).
pub open spec fn spec_item(s: Seq<u8>) -> Option<(int, Item)> {
    let ll = literal_len(s);
    let v = literal_value(s);
    if ll > 0 && i64::MIN <= v <= i64::MAX {
        Some((ll, Item::Num(Rational { num: v as i64, den: 1 })))
    } else if s.len() > 0 && spec_operator(s[0]) is Some {
        Some((1, Item::Operator(spec_operator(s[0]).unwrap())))
    } else {
        None
    }
}

proof fn lemma_digit_run_bounds(s: Seq<u8>)
    ensures
        0 <= digit_run(s) <= s.len(),
    decreases s.len(),
{
    if s.len() > 0 && is_digit(s[0]) {
        lemma_digit_run_bounds(s.skip(1));
    }
}

/// The token at the front, where there is one, is at least one byte long and
/// no longer than the input.
proof fn lemma_spec_item_len(s: Seq<u8>)
    ensures
        spec_item(s) matches Some((n, _)) ==> 1 <= n <= s.len(),
{
    lemma_digit_run_bounds(s);
    if s.len() > 0 {
        lemma_digit_run_bounds(s.skip(1));
    }
}

/// The token sequence of `s`, or `None` where some position starts neither a
/// recognizable token nor whitespace; the whole input must be consumed.
pub open spec fn spec_tokenize(s: Seq<u8>) -> Option<Seq<Item>>
    decreases s.len(),
    via spec_tokenize_decreases
{
    if s.len() == 0 {
        Some(Seq::empty())
    } else if is_space(s[0]) {
        spec_tokenize(s.skip(1))
    } else {
        match spec_item(s) {
            Some((n, item)) => match spec_tokenize(s.skip(n)) {
                Some(t) => Some(seq![item] + t),
                None => None,
            },
            None => None,
        }
    }
}

#[via_fn]
proof fn spec_tokenize_decreases(s: Seq<u8>) {
    lemma_spec_item_len(s);
}

proof fn lemma_digit_run_char(t: Seq<u8>, k: int)
    requires
        0 <= k <= t.len(),
        forall|x: int| 0 <= x < k ==> is_digit(#[trigger] t[x]),
        k == t.len() || !is_digit(t[k]),
    ensures
        digit_run(t) == k,
    decreases k,
{
    if k == 0 {
    } else {
        assert(is_digit(t[0]));
        assert forall|x: int| 0 <= x < k - 1 implies is_digit(#[trigger] t.skip(1)[x]) by {
            assert(t.skip(1)[x] == t[x + 1]);
        }
        if k - 1 < t.skip(1).len() {
            assert(t.skip(1)[k - 1] == t[k]);
        }
        lemma_digit_run_char(t.skip(1), k - 1);
    }
}

proof fn lemma_digits_value_monotone(t: Seq<u8>, k: int, m: int)
    requires
        0 <= k <= m <= t.len(),
        forall|x: int| 0 <= x < m ==> is_digit(#[trigger] t[x]),
    ensures
        0 <= digits_value(t, k) <= digits_value(t, m),
    decreases m,
{
    if m > 0 {
        if k == m {
            lemma_digits_value_monotone(t, m - 1, m - 1);
        } else {
            lemma_digits_value_monotone(t, k, m - 1);
        }
    }
}

impl Operator {
    /// Reads the operator byte at the front of `i`, returning it with the
    /// index just past it.
    pub fn parse(i: &[u8]) -> (r: Result<(usize, Operator), ParseError>)
        ensures
            match r {
                Ok((n, op)) => n == 1 && i@.len() >= 1 && spec_operator(i@[0]) == Some(op),
                Err(_) => i@.len() == 0 || spec_operator(i@[0]) is None,
            },
    {
        if i.len() == 0 {
            return Err(ParseError);
        }
        let c = i[0];
        if c == 43 {
            Ok((1, Operator::Add))
        } else if c == 42 {
            Ok((1, Operator::Multiply))
        } else if c == 45 {
            Ok((1, Operator::Subtract))
        } else if c == 83 {
            Ok((1, Operator::Sum))
        } else if c == 94 {
            Ok((1, Operator::Power))
        } else if c == 99 {
            Ok((1, Operator::Clear))
        } else if c == 47 {
            Ok((1, Operator::Divide))
        } else {
            Err(ParseError)
        }
    }
}

/// Whether the byte at position `j` of `i` is a decimal digit.
fn digit_at(i: &[u8], j: usize) -> (r: bool)
    requires
        j < i@.len(),
    ensures
        r == is_digit(i@[j as int]),
{
    let c = i[j];
    48 <= c && c <= 57
}

impl Item {
    /// Reads the token at the front of `i`: a signed integer literal that
    /// fits an `i64` first, else a single operator byte; returns the token
    /// with the index just past it.
    pub fn parse(i: &[u8]) -> (r: Result<(usize, Item), ParseError>)
        ensures
            match r {
                Ok((n, item)) => spec_item(i@) == Some((n as int, item)) && item_wf(item) && 1
                    <= n <= i@.len(),
                Err(_) => spec_item(i@) is None,
            },
    {
        let ghost s = i@;
        proof {
            lemma_spec_item_len(s);
        }
        if i.len() == 0 {
            return Err(ParseError);
        }
        let c0 = i[0];
        let start: usize = if c0 == 43 || c0 == 45 {
            1
        } else {
            0
        };
        let ghost t = s.skip(start as int);
        let mut j: usize = start;
        while j < i.len() && digit_at(i, j)
            invariant
                start <= j <= i@.len(),
                i@ == s,
                forall|x: int| start <= x < j ==> is_digit(#[trigger] s[x]),
            decreases i@.len() - j,
        {
            j = j + 1;
        }
        let count = j - start;
        proof {
            assert forall|x: int| 0 <= x < count implies is_digit(#[trigger] t[x]) by {
                assert(t[x] == s[start as int + x]);
            }
            if count < t.len() {
                assert(t[count as int] == s[j as int]);
            }
            lemma_digit_run_char(t, count as int);
        }
        if count == 0 {
            // No digits: the literal attempt fails, so a lone sign byte or
            // any other byte is read as an operator, or rejected.
            return match Operator::parse(i) {
                Ok((n, op)) => Ok((n, Item::Operator(op))),
                Err(e) => Err(e),
            };
        }
        // Read the digit run's value, stopping once it can no longer fit.
        let mut m: u128 = 0;
        let mut k: usize = start;
        let mut too_big = false;
        while k < j && !too_big
            invariant
                start <= k <= j <= i@.len(),
                i@ == s,
                t == s.skip(start as int),
                count == j - start,
                digit_run(t) == count,
                forall|x: int| 0 <= x < count ==> is_digit(#[trigger] t[x]),
                !too_big ==> m == digits_value(t, k - start) && m
                    <= 0x8000_0000_0000_0000u128,
                too_big ==> digits_value(t, count as int) > 0x8000_0000_0000_0000,
            decreases i@.len() - k + (if too_big {
                0int
            } else {
                1int
            }),
        {
            let c = i[k];
            proof {
                assert(t[k - start] == s[k as int]);
            }
            let next = m * 10 + ((c - 48) as u128);
            if next > 0x8000_0000_0000_0000u128 {
                proof {
                    lemma_digits_value_monotone(t, k - start + 1, count as int);
                }
                too_big = true;
            } else {
                m = next;
                k = k + 1;
            }
        }
        let ghost v = literal_value(s);
        proof {
            if start == 1 {
                assert(is_sign(s[0]));
                assert(literal_len(s) == 1 + digit_run(s.skip(1)));
                if c0 == 45 {
                    assert(v == -digits_value(t, count as int));
                } else {
                    assert(v == digits_value(t, count as int));
                }
            } else {
                assert(is_digit(s[0]));
                assert(t =~= s);
                assert(literal_len(s) == digit_run(s));
                assert(v == digits_value(t, count as int));
            }
            assert(literal_len(s) == j);
        }
        let fits = !too_big && (c0 == 45 || m <= 0x7fff_ffff_ffff_ffffu128);
        if !fits {
            // The digits outgrow an `i64`: no number token here. A leading
            // sign byte is still read as an operator; a digit is rejected.
            proof {
                if too_big {
                    assert(v > i64::MAX || v < i64::MIN);
                } else {
                    assert(m == digits_value(t, count as int));
                    assert(v > i64::MAX);
                }
            }
            return match Operator::parse(i) {
                Ok((n, op)) => Ok((n, Item::Operator(op))),
                Err(e) => Err(e),
            };
        }
        assert(m == digits_value(t, count as int));
        let num: i64 = if c0 == 45 {
            (-(m as i128)) as i64
        } else {
            m as i64
        };
        let item = Item::Num(Rational::from_integer(num));
        proof {
            assert(num as int == v);
        }
        Ok((j, item))
    }
}

impl Line {
    /// Parses a whole line of text into its token sequence: tokens separated
    /// by optional whitespace, the entire input consumed. Any unrecognized
    /// residue fails the whole line; no partial token list is returned.
    pub fn parse(i: &str) -> (r: Result<Line, ParseError>)
        ensures
            match r {
                Ok(line) => spec_tokenize(i.spec_bytes()) == Some(line@) && line_wf(line@),
                Err(_) => spec_tokenize(i.spec_bytes()) is None,
            },
    {
        Self::parse_bytes(i.as_bytes())
    }

    /// The same tokenizer, on raw bytes.
    pub fn parse_bytes(i: &[u8]) -> (r: Result<Line, ParseError>)
        ensures
            match r {
                Ok(line) => spec_tokenize(i@) == Some(line@) && line_wf(line@),
                Err(_) => spec_tokenize(i@) is None,
            },
    {
        let ghost s = i@;
        let mut items: Vec<Item> = Vec::new();
        let mut pos: usize = 0;
        proof {
            assert(s.skip(0) =~= s);
        }
        while pos < i.len()
            invariant
                pos <= i@.len(),
                i@ == s,
                line_wf(items@),
                spec_tokenize(s) == (match spec_tokenize(s.skip(pos as int)) {
                    Some(t) => Some(items@ + t),
                    None => None::<Seq<Item>>,
                }),
            decreases i@.len() - pos,
        {
            let ghost rest = s.skip(pos as int);
            let c = i[pos];
            if c == 32 || c == 9 || c == 13 || c == 10 {
                proof {
                    assert(rest[0] == s[pos as int]);
                    assert(rest.skip(1) =~= s.skip(pos as int + 1));
                }
                pos = pos + 1;
            } else {
                let sub = vstd::slice::slice_subrange(i, pos, i.len());
                proof {
                    assert(sub@ =~= rest);
                    assert(rest[0] == s[pos as int]);
                }
                match Item::parse(sub) {
                    Ok((n, item)) => {
                        let ghost items_pre = items@;
                        proof {
                            assert(rest.skip(n as int) =~= s.skip(pos as int + n as int));
                        }
                        items.push(item);
                        pos = pos + n;
                        proof {
                            if spec_tokenize(s.skip(pos as int)) is Some {
                                let t = spec_tokenize(s.skip(pos as int)).unwrap();
                                assert(items@ + t =~= items_pre + (seq![item] + t));
                            }
                            assert forall|x: int| 0 <= x < items@.len() implies item_wf(
                                #[trigger] items@[x],
                            ) by {
                                if x < items_pre.len() {
                                    assert(items@[x] == items_pre[x]);
                                } else {
                                    assert(items@[x] == item);
                                }
                            }
                        }
                    },
                    Err(_) => {
                        return Err(ParseError);
                    },
                }
            }
        }
        proof {
            assert(s.skip(s.len() as int) =~= Seq::<u8>::empty());
            assert(items@ + Seq::<Item>::empty() =~= items@);
        }
        Ok(Line(items))
    }
}

} // verus!
