//! The normalizer: reduces raw command text to the canonical lookup key by
//! trimming leading and trailing whitespace. Internal whitespace is kept
//! verbatim, so `"ls  -l"` and `"ls -l"` stay distinct keys.

use vstd::prelude::*;

verus! {

/// The characters with the Unicode `White_Space` property, the set that
/// `str::trim` removes at either end.
pub open spec fn is_ws_char(c: char) -> bool {
    ||| c == ' '
    ||| c == '\t'
    ||| c == '\n'
    ||| c == '\u{b}'
    ||| c == '\u{c}'
    ||| c == '\r'
    ||| c == '\u{85}'
    ||| c == '\u{a0}'
    ||| c == '\u{1680}'
    ||| c == '\u{2000}'
    ||| c == '\u{2001}'
    ||| c == '\u{2002}'
    ||| c == '\u{2003}'
    ||| c == '\u{2004}'
    ||| c == '\u{2005}'
    ||| c == '\u{2006}'
    ||| c == '\u{2007}'
    ||| c == '\u{2008}'
    ||| c == '\u{2009}'
    ||| c == '\u{200a}'
    ||| c == '\u{2028}'
    ||| c == '\u{2029}'
    ||| c == '\u{202f}'
    ||| c == '\u{205f}'
    ||| c == '\u{3000}'
}

/// Executable test for `is_ws_char`.
pub fn is_whitespace_char(c: char) -> (r: bool)
    ensures
        r == is_ws_char(c),
{
    c == ' ' || c == '\t' || c == '\n' || c == '\u{b}' || c == '\u{c}' || c == '\r' || c
        == '\u{85}' || c == '\u{a0}' || c == '\u{1680}' || (c >= '\u{2000}' && c <= '\u{200a}') || c
        == '\u{2028}' || c == '\u{2029}' || c == '\u{202f}' || c == '\u{205f}' || c == '\u{3000}'
}

/// The length of the run of whitespace at the front of `s`.
pub open spec fn ws_prefix(s: Seq<char>) -> nat
    decreases s.len(),
{
    if s.len() == 0 || !is_ws_char(s[0]) {
        0
    } else {
        1 + ws_prefix(s.drop_first())
    }
}

/// The length of the run of whitespace at the back of `s`.
pub open spec fn ws_suffix(s: Seq<char>) -> nat
    decreases s.len(),
{
    if s.len() == 0 || !is_ws_char(s.last()) {
        0
    } else {
        1 + ws_suffix(s.drop_last())
    }
}

/// `s` with leading and trailing whitespace removed: the canonical key of a
/// raw command line.
pub open spec fn trim_spec(s: Seq<char>) -> Seq<char> {
    if ws_prefix(s) == s.len() {
        Seq::empty()
    } else {
        s.subrange(ws_prefix(s) as int, s.len() - ws_suffix(s))
    }
}

pub proof fn lemma_ws_prefix(s: Seq<char>)
    ensures
        ws_prefix(s) <= s.len(),
        forall|k: int| 0 <= k < ws_prefix(s) ==> is_ws_char(#[trigger] s[k]),
        ws_prefix(s) < s.len() ==> !is_ws_char(s[ws_prefix(s) as int]),
    decreases s.len(),
{
    if s.len() == 0 || !is_ws_char(s[0]) {
    } else {
        lemma_ws_prefix(s.drop_first());
        assert forall|k: int| 0 <= k < ws_prefix(s) implies is_ws_char(#[trigger] s[k]) by {
            if k > 0 {
                assert(s.drop_first()[k - 1] == s[k]);
            }
        }
        if ws_prefix(s) < s.len() {
            assert(s.drop_first()[ws_prefix(s.drop_first()) as int] == s[ws_prefix(s) as int]);
        }
    }
}

pub proof fn lemma_ws_suffix(s: Seq<char>)
    ensures
        ws_suffix(s) <= s.len(),
        forall|k: int| s.len() - ws_suffix(s) <= k < s.len() ==> is_ws_char(#[trigger] s[k]),
        ws_suffix(s) < s.len() ==> !is_ws_char(s[s.len() - ws_suffix(s) - 1]),
    decreases s.len(),
{
    if s.len() == 0 || !is_ws_char(s.last()) {
    } else {
        lemma_ws_suffix(s.drop_last());
        assert forall|k: int| s.len() - ws_suffix(s) <= k < s.len() implies is_ws_char(
            #[trigger] s[k],
        ) by {
            if k < s.len() - 1 {
                assert(s.drop_last()[k] == s[k]);
            }
        }
        let suf = ws_suffix(s.drop_last());
        if suf < s.drop_last().len() {
            assert(s.drop_last()[s.len() - suf - 2] == s[s.len() - suf - 2]);
        }
    }
}

/// If any non-whitespace character exists, the whitespace prefix and suffix
/// do not overlap.
pub proof fn lemma_trim_bounds(s: Seq<char>)
    requires
        ws_prefix(s) < s.len(),
    ensures
        ws_prefix(s) + ws_suffix(s) < s.len(),
        !is_ws_char(s[ws_prefix(s) as int]),
        !is_ws_char(s[s.len() - ws_suffix(s) - 1]),
{
    lemma_ws_prefix(s);
    lemma_ws_suffix(s);
    if ws_prefix(s) + ws_suffix(s) >= s.len() {
        assert(is_ws_char(s[ws_prefix(s) as int]));
    }
    assert(ws_suffix(s) < s.len());
}

/// Trimming is idempotent: the normalized form of a key is the key itself.
pub proof fn lemma_trim_idempotent(s: Seq<char>)
    ensures
        trim_spec(trim_spec(s)) == trim_spec(s),
{
    lemma_ws_prefix(s);
    if ws_prefix(s) == s.len() {
        assert(trim_spec(s) =~= Seq::<char>::empty());
    } else {
        lemma_trim_bounds(s);
        let t = trim_spec(s);
        assert(!is_ws_char(t[0]));
        assert(!is_ws_char(t.last()));
        assert(ws_prefix(t) == 0);
        assert(ws_suffix(t) == 0);
        assert(trim_spec(t) =~= t);
    }
}

/// Reduces a raw command line to its canonical key: the text with leading and
/// trailing whitespace removed.
pub fn normalize(cmdline: &str) -> (r: &str)
    ensures
        r@ == trim_spec(cmdline@),
{
    let n = cmdline.unicode_len();
    let mut i: usize = 0;
    while i < n && is_whitespace_char(cmdline.get_char(i))
        invariant
            0 <= i <= n,
            n == cmdline@.len(),
            forall|k: int| 0 <= k < i ==> is_ws_char(#[trigger] cmdline@[k]),
        decreases n - i,
    {
        i = i + 1;
    }
    proof {
        lemma_ws_prefix(cmdline@);
        if i < n {
            assert(ws_prefix(cmdline@) == i) by {
                if ws_prefix(cmdline@) < i {
                    assert(is_ws_char(cmdline@[ws_prefix(cmdline@) as int]));
                }
            }
        } else {
            assert(ws_prefix(cmdline@) == n);
        }
    }
    if i == n {
        let r = cmdline.substring_char(n, n);
        proof {
            assert(r@ =~= trim_spec(cmdline@));
        }
        return r;
    }
    let mut j: usize = n;
    while j > i && is_whitespace_char(cmdline.get_char(j - 1))
        invariant
            i <= j <= n,
            n == cmdline@.len(),
            i == ws_prefix(cmdline@),
            forall|k: int| j <= k < n ==> is_ws_char(#[trigger] cmdline@[k]),
        decreases j,
    {
        j = j - 1;
    }
    proof {
        lemma_ws_suffix(cmdline@);
        lemma_trim_bounds(cmdline@);
        let suf = ws_suffix(cmdline@);
        assert(j == n - suf) by {
            if j < n - suf {
                assert(is_ws_char(cmdline@[n - suf - 1]));
            }
            if j > n - suf {
                assert(is_ws_char(cmdline@[j - 1]));
                assert(i < n - suf);
            }
        }
    }
    let r = cmdline.substring_char(i, j);
    proof {
        assert(r@ =~= trim_spec(cmdline@));
    }
    r
}

} // verus!
