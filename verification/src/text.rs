//! Text plumbing for the interactive pruning protocol: a candidate entry is
//! presented as `"<count>: <cmdline>"`, and a line handed back by the
//! selector is parsed by splitting once at the first `": "` separator.

use vstd::prelude::*;

verus! {

/// The digit character for one decimal digit value.
pub open spec fn digit_char(d: nat) -> char
    recommends
        d < 10,
{
    ((48 + d) as u8) as char
}

/// The decimal digits of `n`, most significant first, no leading zeros
/// (a single `'0'` for zero).
pub open spec fn dec_digits(n: nat) -> Seq<char>
    decreases n,
{
    if n < 10 {
        seq![digit_char(n)]
    } else {
        dec_digits(n / 10).push(digit_char(n % 10))
    }
}

/// Every decimal digit lies between `'0'` and `'9'`; in particular none is
/// a colon, which keeps the count apart from the separator.
pub proof fn lemma_dec_digits_are_digits(n: nat)
    ensures
        dec_digits(n).len() >= 1,
        forall|i: int|
            0 <= i < dec_digits(n).len() ==> '0' <= #[trigger] dec_digits(n)[i] && dec_digits(n)[i]
                <= '9',
    decreases n,
{
    if n >= 10 {
        lemma_dec_digits_are_digits(n / 10);
    }
}

/// One decimal digit as text.
fn digit_str(d: u64) -> (r: &'static str)
    requires
        d < 10,
    ensures
        r@ == seq![digit_char(d as nat)],
{
    proof {
        reveal_strlit("0");
        reveal_strlit("1");
        reveal_strlit("2");
        reveal_strlit("3");
        reveal_strlit("4");
        reveal_strlit("5");
        reveal_strlit("6");
        reveal_strlit("7");
        reveal_strlit("8");
        reveal_strlit("9");
    }
    let r = if d == 0 {
        "0"
    } else if d == 1 {
        "1"
    } else if d == 2 {
        "2"
    } else if d == 3 {
        "3"
    } else if d == 4 {
        "4"
    } else if d == 5 {
        "5"
    } else if d == 6 {
        "6"
    } else if d == 7 {
        "7"
    } else if d == 8 {
        "8"
    } else {
        "9"
    };
    proof {
        assert(r@ =~= seq![digit_char(d as nat)]);
    }
    r
}

/// Renders `n` in decimal.
pub fn u64_to_string(n: u64) -> (r: String)
    ensures
        r@ == dec_digits(n as nat),
    decreases n,
{
    if n < 10 {
        let r = String::from_str(digit_str(n));
        r
    } else {
        let mut s = u64_to_string(n / 10);
        s.append(digit_str(n % 10));
        proof {
            assert(s@ =~= dec_digits(n as nat));
        }
        s
    }
}

/// What parsing a selector line yields: the text after the first `": "`
/// separator, or nothing when no separator occurs.
pub open spec fn parse_selection_spec(s: Seq<char>) -> Option<Seq<char>>
    decreases s.len(),
{
    if s.len() < 2 {
        None
    } else if s[0] == ':' && s[1] == ' ' {
        Some(s.subrange(2, s.len() as int))
    } else {
        parse_selection_spec(s.drop_first())
    }
}

/// The separator position characterization: if no separator starts before
/// `i` and one starts at `i`, parsing returns the text after it.
proof fn lemma_parse_selection_found(s: Seq<char>, i: int)
    requires
        0 <= i,
        i + 1 < s.len(),
        forall|j: int| 0 <= j < i ==> !((#[trigger] s[j]) == ':' && s[j + 1] == ' '),
        s[i] == ':' && s[i + 1] == ' ',
    ensures
        parse_selection_spec(s) == Some(s.subrange(i + 2, s.len() as int)),
    decreases i,
{
    if i == 0 {
    } else {
        let t = s.drop_first();
        assert forall|j: int| 0 <= j < i - 1 implies !((#[trigger] t[j]) == ':' && t[j + 1] == ' ') by {
            assert(t[j] == s[j + 1]);
            assert(t[j + 1] == s[j + 2]);
        }
        assert(t[i - 1] == s[i] && t[i] == s[i + 1]);
        lemma_parse_selection_found(t, i - 1);
        assert(t.subrange(i + 1, t.len() as int) =~= s.subrange(i + 2, s.len() as int));
    }
}

/// If no separator occurs anywhere, parsing yields nothing.
proof fn lemma_parse_selection_missing(s: Seq<char>)
    requires
        forall|j: int| 0 <= j && j + 1 < s.len() ==> !((#[trigger] s[j]) == ':' && s[j + 1] == ' '),
    ensures
        parse_selection_spec(s) is None,
    decreases s.len(),
{
    if s.len() >= 2 {
        let t = s.drop_first();
        assert forall|j: int| 0 <= j && j + 1 < t.len() implies !((#[trigger] t[j]) == ':' && t[j
            + 1] == ' ') by {
            assert(t[j] == s[j + 1]);
            assert(t[j + 1] == s[j + 2]);
        }
        lemma_parse_selection_missing(t);
    }
}

/// Splits a selector line once at the first `": "` and returns what
/// follows: the exact key to delete. Lines without the separator are
/// reported as unparseable, never a guess.
pub fn parse_selection(line: &str) -> (r: Option<String>)
    ensures
        match r {
            Some(key) => parse_selection_spec(line@) == Some(key@),
            None => parse_selection_spec(line@) is None,
        },
{
    let n = line.unicode_len();
    if n < 2 {
        proof {
            lemma_parse_selection_missing(line@);
        }
        return None;
    }
    let mut i: usize = 0;
    while i + 1 < n
        invariant
            n == line@.len(),
            0 <= i,
            i + 1 <= n,
            forall|j: int| 0 <= j < i ==> !((#[trigger] line@[j]) == ':' && line@[j + 1] == ' '),
        decreases n - i,
    {
        if line.get_char(i) == ':' && line.get_char(i + 1) == ' ' {
            let rest = line.substring_char(i + 2, n);
            proof {
                lemma_parse_selection_found(line@, i as int);
            }
            return Some(String::from_str(rest));
        }
        i = i + 1;
    }
    proof {
        lemma_parse_selection_missing(line@);
    }
    None
}

/// The line presented to the selector for one candidate:
/// `"<count>: <cmdline>"`.
pub open spec fn candidate_line_spec(count: u64, cmdline: Seq<char>) -> Seq<char> {
    dec_digits(count as nat) + seq![':', ' '] + cmdline
}

/// Renders one candidate line.
pub fn candidate_line(count: u64, cmdline: &str) -> (r: String)
    ensures
        r@ == candidate_line_spec(count, cmdline@),
{
    let mut s = u64_to_string(count);
    proof {
        reveal_strlit(": ");
    }
    s.append(": ");
    s.append(cmdline);
    proof {
        assert(s@ =~= candidate_line_spec(count, cmdline@));
    }
    s
}

/// Parsing a rendered candidate line gives back exactly the command line it
/// was rendered from: the pruning protocol round-trips.
pub proof fn lemma_candidate_line_round_trip(count: u64, cmdline: Seq<char>)
    ensures
        parse_selection_spec(candidate_line_spec(count, cmdline)) == Some(cmdline),
{
    let digits = dec_digits(count as nat);
    let s = candidate_line_spec(count, cmdline);
    lemma_dec_digits_are_digits(count as nat);
    let i = digits.len() as int;
    assert forall|j: int| 0 <= j < i implies !((#[trigger] s[j]) == ':' && s[j + 1] == ' ') by {
        assert(s[j] == digits[j]);
        assert('0' <= s[j] && s[j] <= '9');
        assert(s[j] != ':');
    }
    assert(s[i] == ':' && s[i + 1] == ' ');
    lemma_parse_selection_found(s, i);
    assert(s.subrange(i + 2, s.len() as int) =~= cmdline);
}

} // verus!
