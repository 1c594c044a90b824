//! Character-level helpers for the short texts this library produces and reads:
//! decimal numerals, whitespace trimming and pattern search.
use vstd::prelude::*;
use vstd::string::StrSliceExecFns;

verus! {

broadcast use vstd::string::group_string_axioms;

/// The characters that `char::is_whitespace` accepts: the Unicode `White_Space` property.
pub open spec fn is_white_space(c: char) -> bool {
    ('\u{9}' <= c && c <= '\u{d}') || c == ' ' || c == '\u{85}' || c == '\u{a0}'
        || c == '\u{1680}' || ('\u{2000}' <= c && c <= '\u{200a}') || c == '\u{2028}'
        || c == '\u{2029}' || c == '\u{202f}' || c == '\u{205f}' || c == '\u{3000}'
}

/// The decimal numeral of `n`, without sign or leading zeros.
pub open spec fn decimal(n: nat) -> Seq<char>
    decreases n,
{
    if n < 10 {
        seq![digit_char(n)]
    } else {
        decimal(n / 10) + seq![digit_char(n % 10)]
    }
}

pub open spec fn digit_char(d: nat) -> char {
    (('0' as u32) + d) as char
}

/// Index of the first character of `s` that is not white space (`s.len()` if none).
pub open spec fn first_non_space(s: Seq<char>) -> nat
    decreases s.len(),
{
    if s.len() == 0 || !is_white_space(s[0]) {
        0
    } else {
        1 + first_non_space(s.drop_first())
    }
}

/// Length of `s` once trailing characters satisfying `strip` are removed.
pub open spec fn kept_len(s: Seq<char>, strip: spec_fn(char) -> bool) -> nat
    decreases s.len(),
{
    if s.len() == 0 || !strip(s.last()) {
        s.len()
    } else {
        kept_len(s.drop_last(), strip)
    }
}

/// `s` without leading and trailing white space, as `str::trim` returns it.
pub open spec fn trim_spaces(s: Seq<char>) -> Seq<char> {
    let end = kept_len(s, |c: char| is_white_space(c));
    s.subrange(first_non_space(s.subrange(0, end as int)) as int, end as int)
}

/// `s` without its trailing NUL characters.
pub open spec fn strip_trailing_nul(s: Seq<char>) -> Seq<char> {
    s.subrange(0, kept_len(s, |c: char| c == '\0') as int)
}

/// Whether `pat` occurs in `s` starting at index `i`.
pub open spec fn occurs_at(s: Seq<char>, pat: Seq<char>, i: int) -> bool {
    0 <= i && i + pat.len() <= s.len() && s.subrange(i, i + pat.len()) == pat
}

/// `s` up to the first occurrence of `pat`, or all of `s` when `pat` does not occur.
pub open spec fn before_first(s: Seq<char>, pat: Seq<char>) -> Seq<char> {
    if exists|i: int| occurs_at(s, pat, i) {
        let i = choose|i: int| occurs_at(s, pat, i) && forall|j: int| 0 <= j < i ==> !occurs_at(s, pat, j);
        s.subrange(0, i)
    } else {
        s
    }
}

fn is_white_space_char(c: char) -> (r: bool)
    ensures
        r == is_white_space(c),
{
    ('\u{9}' <= c && c <= '\u{d}') || c == ' ' || c == '\u{85}' || c == '\u{a0}'
        || c == '\u{1680}' || ('\u{2000}' <= c && c <= '\u{200a}') || c == '\u{2028}'
        || c == '\u{2029}' || c == '\u{202f}' || c == '\u{205f}' || c == '\u{3000}'
}

fn digit_str(d: u64) -> (r: &'static str)
    requires
        d < 10,
    ensures
        r@ == seq![digit_char(d as nat)],
{
    let r = if d == 0 {
        "0"
    } else if d == 1 {
        "1"
    } else if d == 2 {
        "2"
    } else if d == 3 {
        "3"
    } else if d == 4 {
        "4"
    } else if d == 5 {
        "5"
    } else if d == 6 {
        "6"
    } else if d == 7 {
        "7"
    } else if d == 8 {
        "8"
    } else {
        "9"
    };
    proof {
        reveal_strlit("0");
        reveal_strlit("1");
        reveal_strlit("2");
        reveal_strlit("3");
        reveal_strlit("4");
        reveal_strlit("5");
        reveal_strlit("6");
        reveal_strlit("7");
        reveal_strlit("8");
        reveal_strlit("9");
        assert(r@ =~= seq![digit_char(d as nat)]);
    }
    r
}

/// Appends the decimal numeral of `n` to `out`.
pub fn push_decimal(out: &mut String, n: u64)
    ensures
        final(out)@ == old(out)@ + decimal(n as nat),
    decreases n,
{
    if n >= 10 {
        push_decimal(out, n / 10);
    }
    out.append(digit_str(n % 10));
}

proof fn lemma_kept_len(s: Seq<char>, strip: spec_fn(char) -> bool, end: int)
    requires
        0 <= end <= s.len(),
        forall|k: int| end <= k < s.len() ==> #[trigger] strip(s[k]),
        end == 0 || !strip(s[end - 1]),
    ensures
        kept_len(s, strip) == end,
    decreases s.len(),
{
    if s.len() > end {
        let t = s.drop_last();
        assert forall|k: int| end <= k < t.len() implies #[trigger] strip(t[k]) by {
            assert(strip(s[k]));
        }
        lemma_kept_len(t, strip, end);
    }
}

proof fn lemma_first_non_space(s: Seq<char>, start: int)
    requires
        0 <= start <= s.len(),
        forall|k: int| 0 <= k < start ==> #[trigger] is_white_space(s[k]),
        start == s.len() || !is_white_space(s[start]),
    ensures
        first_non_space(s) == start,
    decreases start,
{
    if start > 0 {
        let t = s.drop_first();
        assert forall|k: int| 0 <= k < start - 1 implies #[trigger] is_white_space(t[k]) by {
            assert(is_white_space(s[k + 1]));
        }
        lemma_first_non_space(t, start - 1);
    }
}

/// Length of `s` without its trailing white space.
fn end_without_spaces(s: &str) -> (end: usize)
    ensures
        end == kept_len(s@, |c: char| is_white_space(c)),
        end <= s@.len(),
{
    let ghost strip = |c: char| is_white_space(c);
    let mut end = s.unicode_len();
    while end > 0 && is_white_space_char(s.get_char(end - 1))
        invariant
            end <= s@.len(),
            forall|k: int| end <= k < s@.len() ==> #[trigger] is_white_space(s@[k]),
        decreases end,
    {
        end = end - 1;
    }
    proof {
        lemma_kept_len(s@, strip, end as int);
    }
    end
}

/// `s` without leading and trailing white space.
pub fn trim_str(s: &str) -> (r: String)
    ensures
        r@ == trim_spaces(s@),
{
    let end = end_without_spaces(s);
    let ghost kept = s@.subrange(0, end as int);
    let mut start: usize = 0;
    while start < end && is_white_space_char(s.get_char(start))
        invariant
            start <= end,
            end <= s@.len(),
            kept == s@.subrange(0, end as int),
            forall|k: int| 0 <= k < start ==> #[trigger] is_white_space(kept[k]),
        decreases end - start,
    {
        start = start + 1;
    }
    proof {
        lemma_first_non_space(kept, start as int);
    }
    s.substring_char(start, end).to_string()
}

/// `s` without its trailing NUL characters.
pub fn strip_nul_str(s: &str) -> (r: String)
    ensures
        r@ == strip_trailing_nul(s@),
{
    let ghost strip = |c: char| c == '\0';
    let mut end = s.unicode_len();
    while end > 0 && s.get_char(end - 1) == '\0'
        invariant
            end <= s@.len(),
            forall|k: int| end <= k < s@.len() ==> #[trigger] s@[k] == '\0',
        decreases end,
    {
        end = end - 1;
    }
    proof {
        lemma_kept_len(s@, strip, end as int);
    }
    s.substring_char(0, end).to_string()
}

/// Whether `a` and `b` hold the same characters.
pub fn same_text(a: &str, b: &str) -> (r: bool)
    ensures
        r == (a@ == b@),
{
    let n = a.unicode_len();
    if n != b.unicode_len() {
        return false;
    }
    let mut k: usize = 0;
    while k < n
        invariant
            k <= n,
            n == a@.len(),
            n == b@.len(),
            forall|j: int| 0 <= j < k ==> a@[j] == b@[j],
        decreases n - k,
    {
        if a.get_char(k) != b.get_char(k) {
            return false;
        }
        k = k + 1;
    }
    assert(a@ =~= b@);
    true
}

/// Whether `pat` occurs in `s` at character index `i`.
fn occurs_at_index(s: &str, pat: &str, i: usize) -> (r: bool)
    ensures
        r == occurs_at(s@, pat@, i as int),
{
    let n = s.unicode_len();
    let m = pat.unicode_len();
    if i > n || m > n - i {
        return false;
    }
    let mut k: usize = 0;
    while k < m
        invariant
            k <= m,
            m == pat@.len(),
            n == s@.len(),
            i + m <= n,
            forall|j: int| 0 <= j < k ==> s@[i + j] == pat@[j],
        decreases m - k,
    {
        if s.get_char(i + k) != pat.get_char(k) {
            assert(s@.subrange(i as int, i + m)[k as int] != pat@[k as int]);
            return false;
        }
        k = k + 1;
    }
    assert(s@.subrange(i as int, i + m) =~= pat@);
    true
}

/// `s` up to the first occurrence of `pat`, or all of `s`.
pub fn cut_before(s: &str, pat: &str) -> (r: String)
    ensures
        r@ == before_first(s@, pat@),
{
    let n = s.unicode_len();
    let mut i: usize = 0;
    while i < n
        invariant
            i <= n,
            n == s@.len(),
            forall|j: int| 0 <= j < i ==> !occurs_at(s@, pat@, j),
        decreases n - i,
    {
        if occurs_at_index(s, pat, i) {
            proof {
                let c = choose|c: int| occurs_at(s@, pat@, c) && forall|j: int| 0 <= j < c ==> !occurs_at(s@, pat@, j);
                assert(occurs_at(s@, pat@, i as int));
                if c < i {
                } else if c > i {
                    assert(!occurs_at(s@, pat@, i as int));
                }
            }
            return s.substring_char(0, i).to_string();
        }
        i = i + 1;
    }
    if occurs_at_index(s, pat, n) {
        proof {
            let c = choose|c: int| occurs_at(s@, pat@, c) && forall|j: int| 0 <= j < c ==> !occurs_at(s@, pat@, j);
            assert(occurs_at(s@, pat@, n as int));
            if c > n {
                assert(!occurs_at(s@, pat@, n as int));
            }
        }
        return s.substring_char(0, n).to_string();
    }
    proof {
        assert forall|j: int| !occurs_at(s@, pat@, j) by {
            if j > n {
                assert(!(j + pat@.len() <= s@.len()));
            }
        }
        assert(s@.subrange(0, n as int) =~= s@);
    }
    s.substring_char(0, n).to_string()
}

} // verus!
