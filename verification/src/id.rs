//! Item identifiers.
//!
//! Every item is named by a pair `(agent, id)` of unsigned 32-bit integers:
//! the agent that created it and a counter local to that agent.  The textual
//! wire form is `"<agent>:<id>"`, both halves unsigned decimal.

use vstd::prelude::*;
use vstd::arithmetic::div_mod::lemma_fundamental_div_mod;

use crate::errors::ListError;

verus! {

/// A composite identifier `(agent, id)` naming one list item.
#[derive(Clone, Copy, PartialEq, Eq, Structural, Debug, Hash)]
pub struct Id {
    pub agent: u32,
    pub id: u32,
}

/// The character for a single decimal digit `d`.
pub open spec fn digit_char(d: u32) -> char
    recommends
        d < 10,
{
    ((d + 48) as u8) as char
}

/// The decimal digit encoded by `c`, meaningful only when `is_digit_char(c)`.
pub open spec fn char_digit(c: char) -> u32 {
    ((c as u32) - 48) as u32
}

/// Whether `c` is one of the decimal digits `'0'` to `'9'`.
pub open spec fn is_digit_char(c: char) -> bool {
    48 <= c as u32 <= 57
}

/// The decimal digit sequence of `n`, most significant digit first.
pub open spec fn decimal_digits(n: u32) -> Seq<char>
    decreases n via decimal_digits_decreases
{
    if n < 10 {
        seq![digit_char(n)]
    } else {
        decimal_digits(n / 10).push(digit_char(n % 10))
    }
}

#[via_fn]
proof fn decimal_digits_decreases(n: u32) {
    assert(n >= 10 ==> n / 10 < n) by (nonlinear_arith);
}

/// The textual form of an identifier: its two halves in decimal, separated
/// by a colon.
pub open spec fn id_text(i: Id) -> Seq<char> {
    decimal_digits(i.agent) + seq![':'] + decimal_digits(i.id)
}

/// Whether every character of `s` is a decimal digit.
pub open spec fn all_digits(s: Seq<char>) -> bool {
    forall|k: int| 0 <= k < s.len() ==> is_digit_char(#[trigger] s[k])
}

/// The number denoted by the digit sequence `s`, most significant first.
pub open spec fn digits_val(s: Seq<char>) -> nat
    decreases s.len()
{
    if s.len() == 0 {
        0
    } else {
        (digits_val(s.drop_last()) * 10 + char_digit(s.last())) as nat
    }
}

/// Whether position `i` splits `s` into a well-formed identifier text:
/// a nonempty run of digits, a colon at `i`, and a nonempty run of digits,
/// both runs denoting numbers that fit in `u32`.
pub open spec fn parse_split_ok(s: Seq<char>, i: int) -> bool {
    &&& 1 <= i < s.len() - 1
    &&& s[i] == ':'
    &&& all_digits(s.subrange(0, i))
    &&& all_digits(s.subrange(i + 1, s.len() as int))
    &&& digits_val(s.subrange(0, i)) <= u32::MAX
    &&& digits_val(s.subrange(i + 1, s.len() as int)) <= u32::MAX
}

/// The identifier denoted by the text `s`, or `None` where `s` is not of the
/// form `"<agent>:<id>"` with both halves unsigned decimal numbers that fit
/// in 32 bits.
pub open spec fn spec_parse_id(s: Seq<char>) -> Option<Id> {
    if exists|i: int| parse_split_ok(s, i) {
        let i = choose|i: int| parse_split_ok(s, i);
        Some(
            Id {
                agent: digits_val(s.subrange(0, i)) as u32,
                id: digits_val(s.subrange(i + 1, s.len() as int)) as u32,
            },
        )
    } else {
        None
    }
}

/// A colon is not a digit, so at most one split position can qualify.
proof fn lemma_split_unique(s: Seq<char>, a: int, b: int)
    requires
        parse_split_ok(s, a),
        parse_split_ok(s, b),
    ensures
        a == b,
{
    if a < b {
        assert(s.subrange(0, b)[a] == s[a]);
        assert(is_digit_char(s[a]));
        assert(':' as u32 == 58);
    }
    if b < a {
        assert(s.subrange(0, a)[b] == s[b]);
        assert(is_digit_char(s[b]));
        assert(':' as u32 == 58);
    }
}

/// Extending a digit run to the right never decreases its value.
proof fn lemma_digits_val_prefix(s: Seq<char>, k: int)
    requires
        0 <= k <= s.len(),
    ensures
        digits_val(s.subrange(0, k)) <= digits_val(s),
    decreases s.len() - k
{
    if k < s.len() {
        let t = s.subrange(0, k + 1);
        assert(t.drop_last() =~= s.subrange(0, k));
        assert(digits_val(s.subrange(0, k)) <= digits_val(t));
        lemma_digits_val_prefix(s, k + 1);
        assert(s.subrange(0, s.len() as int) =~= s);
    } else {
        assert(s.subrange(0, k) =~= s);
    }
}

/// The digits of `n` denote `n`: they are nonempty, all decimal, and fold
/// back to the value they were produced from.
proof fn lemma_decimal_digits(n: u32)
    ensures
        decimal_digits(n).len() >= 1,
        all_digits(decimal_digits(n)),
        digits_val(decimal_digits(n)) == n,
    decreases n
{
    if n < 10 {
        let s = decimal_digits(n);
        assert(s =~= seq![digit_char(n)]);
        assert(s.drop_last() =~= Seq::<char>::empty());
        assert(((n + 48) as u8) as char as u32 == n + 48);
        assert(char_digit(digit_char(n)) == n);
        assert(digits_val(s) == digits_val(s.drop_last()) * 10 + char_digit(s.last()));
    } else {
        assert(n / 10 < n) by (nonlinear_arith)
            requires n >= 10;
        lemma_decimal_digits(n / 10);
        let s = decimal_digits(n);
        let p = decimal_digits(n / 10);
        assert(s == p.push(digit_char(n % 10)));
        assert(s.drop_last() =~= p);
        assert(s.last() == digit_char(n % 10));
        assert(char_digit(digit_char(n % 10)) == n % 10);
        assert(digits_val(s) == (n / 10) * 10 + n % 10);
        lemma_fundamental_div_mod(n as int, 10);
        assert(forall|k: int| 0 <= k < s.len() ==> is_digit_char(#[trigger] s[k])) by {
            assert(forall|k: int| 0 <= k < p.len() ==> is_digit_char(#[trigger] p[k]));
            assert(forall|k: int| 0 <= k < s.len() ==> s[k] == if k < p.len() { p[k] } else {
                digit_char(n % 10)
            });
        }
    }
}

/// Formatting an identifier and parsing the result yields the identifier
/// back: the textual wire form is lossless.
pub proof fn lemma_id_text_round_trip(i: Id)
    ensures
        spec_parse_id(id_text(i)) == Some(i),
{
    let s = id_text(i);
    let a = decimal_digits(i.agent);
    let b = decimal_digits(i.id);
    lemma_decimal_digits(i.agent);
    lemma_decimal_digits(i.id);
    let p = a.len() as int;
    assert(s[p] == ':');
    assert(s.subrange(0, p) =~= a);
    assert(s.subrange(p + 1, s.len() as int) =~= b);
    assert(parse_split_ok(s, p));
    let q = choose|q: int| parse_split_ok(s, q);
    lemma_split_unique(s, p, q);
}

impl Id {
    /// Constructs the identifier `(agent, id)`.
    pub fn new(agent: u32, id: u32) -> (r: Self)
        ensures
            r.agent == agent,
            r.id == id,
    {
        Id { agent, id }
    }

    /// Serializes the identifier as `"<agent>:<id>"`.
    pub fn text(&self) -> (r: String)
        ensures
            r@ == id_text(*self),
    {
        proof {
            reveal_strlit(":");
        }
        let mut s = u32_text(self.agent);
        s.append(":");
        s.append(u32_text(self.id).as_str());
        proof {
            assert(":"@ =~= seq![':']);
            assert(s@ =~= id_text(*self));
        }
        s
    }

    /// Parses `"<agent>:<id>"`; any other form is an [`ListError::InvalidId`].
    pub fn parse(s: &str) -> (r: Result<Id, ListError>)
        ensures
            match r {
                Ok(i) => spec_parse_id(s@) == Some(i),
                Err(e) => spec_parse_id(s@) is None && e == ListError::InvalidId,
            },
    {
        let len = s.unicode_len();
        let mut i: usize = 0;
        while i < len && s.get_char(i) != ':'
            invariant
                0 <= i <= len,
                len == s@.len(),
                forall|k: int| 0 <= k < i ==> s@[k] != ':',
            decreases len - i
        {
            i += 1;
        }
        if i == len || i == 0 || i + 1 == len {
            proof {
                lemma_no_valid_split(s@, i as int);
            }
            return Err(ListError::InvalidId);
        }
        let agent = match parse_digits(s, 0, i) {
            Some(v) => v,
            None => {
                proof {
                    lemma_no_valid_split(s@, i as int);
                }
                return Err(ListError::InvalidId);
            },
        };
        let id = match parse_digits(s, i + 1, len) {
            Some(v) => v,
            None => {
                proof {
                    lemma_no_valid_split(s@, i as int);
                }
                return Err(ListError::InvalidId);
            },
        };
        proof {
            assert(parse_split_ok(s@, i as int));
            let q = choose|q: int| parse_split_ok(s@, q);
            lemma_split_unique(s@, i as int, q);
        }
        Ok(Id { agent, id })
    }
}

/// Where the first colon of `s` sits at `i` and the split there fails, no
/// split at all succeeds.
proof fn lemma_no_valid_split(s: Seq<char>, i: int)
    requires
        forall|k: int| 0 <= k < i ==> s[k] != ':',
        0 <= i <= s.len(),
        i < s.len() ==> s[i] == ':',
        !parse_split_ok(s, i),
    ensures
        spec_parse_id(s) is None,
{
    assert forall|q: int| !parse_split_ok(s, q) by {
        if parse_split_ok(s, q) {
            if q < i {
                assert(s[q] == ':');
                assert(s[q] != ':');
            } else if q > i {
                assert(i < s.len() - 1);
                assert(s[i] == ':');
                assert(s.subrange(0, q)[i] == s[i]);
                assert(is_digit_char(s[i]));
                assert(':' as u32 == 58);
                assert(false);
            } else {
                assert(q == i);
                assert(false);
            }
        }
    }
}

/// Parses the decimal run `s[from..to]`; `None` where a character is not a
/// digit or the value exceeds `u32::MAX`.
fn parse_digits(s: &str, from: usize, to: usize) -> (r: Option<u32>)
    requires
        from < to <= s@.len(),
    ensures
        match r {
            Some(v) => all_digits(s@.subrange(from as int, to as int))
                && digits_val(s@.subrange(from as int, to as int)) == v,
            None => !(all_digits(s@.subrange(from as int, to as int))
                && digits_val(s@.subrange(from as int, to as int)) <= u32::MAX),
        },
{
    let ghost whole = s@.subrange(from as int, to as int);
    let mut acc: u64 = 0;
    let mut j: usize = from;
    while j < to
        invariant
            from <= j <= to <= s@.len(),
            whole == s@.subrange(from as int, to as int),
            all_digits(s@.subrange(from as int, j as int)),
            acc == digits_val(s@.subrange(from as int, j as int)),
            acc <= u32::MAX,
        decreases to - j
    {
        let c = s.get_char(j);
        let cv = c as u32;
        if cv < 48 || cv > 57 {
            proof {
                assert(whole[j - from] == s@[j as int]);
                assert(!is_digit_char(whole[j - from]));
            }
            return None;
        }
        let d = (cv - 48) as u64;
        acc = acc * 10 + d;
        proof {
            let pre = s@.subrange(from as int, j as int);
            let cur = s@.subrange(from as int, j + 1);
            assert(cur.drop_last() =~= pre);
            assert(cur.last() == s@[j as int]);
            assert(char_digit(s@[j as int]) == d);
        }
        j += 1;
        if acc > 0xffff_ffff {
            proof {
                let cur = s@.subrange(from as int, j as int);
                assert(cur =~= whole.subrange(0, j - from));
                lemma_digits_val_prefix(whole, j - from);
            }
            return None;
        }
    }
    proof {
        assert(s@.subrange(from as int, j as int) =~= whole);
    }
    Some(acc as u32)
}

/// Formats `n` in decimal.
fn u32_text(n: u32) -> (s: String)
    ensures
        s@ == decimal_digits(n),
    decreases n
{
    if n < 10 {
        let s = String::from_str(digit_str(n));
        proof {
            assert(s@ =~= decimal_digits(n));
        }
        s
    } else {
        proof {
            assert(n / 10 < n) by (nonlinear_arith)
                requires n >= 10;
        }
        let mut s = u32_text(n / 10);
        s.append(digit_str(n % 10));
        proof {
            assert(s@ =~= decimal_digits(n));
        }
        s
    }
}

/// The one-character string for the decimal digit `d`.
fn digit_str(d: u32) -> (s: &'static str)
    requires
        d < 10,
    ensures
        s@ =~= seq![digit_char(d)],
{
    proof {
        reveal_strlit("0");
        reveal_strlit("1");
        reveal_strlit("2");
        reveal_strlit("3");
        reveal_strlit("4");
        reveal_strlit("5");
        reveal_strlit("6");
        reveal_strlit("7");
        reveal_strlit("8");
        reveal_strlit("9");
    }
    match d {
        0 => "0",
        1 => "1",
        2 => "2",
        3 => "3",
        4 => "4",
        5 => "5",
        6 => "6",
        7 => "7",
        8 => "8",
        _ => "9",
    }
}

} // verus!
