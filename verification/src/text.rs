//! Decimal rendering of unsigned numbers, with its character-level
//! specification; used by the wire protocol and by log messages.
use vstd::prelude::*;

verus! {

/// The character for one decimal digit.
pub open spec fn digit_char_spec(d: int) -> char {
    if d == 0 {
        '0'
    } else if d == 1 {
        '1'
    } else if d == 2 {
        '2'
    } else if d == 3 {
        '3'
    } else if d == 4 {
        '4'
    } else if d == 5 {
        '5'
    } else if d == 6 {
        '6'
    } else if d == 7 {
        '7'
    } else if d == 8 {
        '8'
    } else {
        '9'
    }
}

/// The decimal numeral of a nonnegative number, most significant digit first.
pub open spec fn dec_spec(n: int) -> Seq<char>
    decreases n,
{
    if n < 10 {
        seq![digit_char_spec(n)]
    } else {
        dec_spec(n / 10) + seq![digit_char_spec(n % 10)]
    }
}

/// The digit characters of `s` read from its last element to its first.
spec fn rev_chars(s: Seq<u64>) -> Seq<char>
    decreases s.len(),
{
    if s.len() == 0 {
        Seq::empty()
    } else {
        seq![digit_char_spec(s.last() as int)] + rev_chars(s.drop_last())
    }
}

proof fn lemma_rev_chars_index(s: Seq<u64>, k: int)
    requires
        0 <= k < s.len(),
    ensures
        rev_chars(s).len() == s.len(),
        rev_chars(s)[k] == digit_char_spec(s[s.len() - 1 - k] as int),
    decreases s.len(),
{
    lemma_rev_chars_len(s);
    if k == 0 {
    } else {
        lemma_rev_chars_index(s.drop_last(), k - 1);
    }
}

proof fn lemma_rev_chars_len(s: Seq<u64>)
    ensures
        rev_chars(s).len() == s.len(),
    decreases s.len(),
{
    if s.len() > 0 {
        lemma_rev_chars_len(s.drop_last());
    }
}

fn digit_str(d: u64) -> (r: &'static str)
    requires
        d < 10,
    ensures
        r@ == seq![digit_char_spec(d as int)],
{
    proof {
        reveal_strlit("0");
        reveal_strlit("1");
        reveal_strlit("2");
        reveal_strlit("3");
        reveal_strlit("4");
        reveal_strlit("5");
        reveal_strlit("6");
        reveal_strlit("7");
        reveal_strlit("8");
        reveal_strlit("9");
    }
    let r = match d {
        0 => "0",
        1 => "1",
        2 => "2",
        3 => "3",
        4 => "4",
        5 => "5",
        6 => "6",
        7 => "7",
        8 => "8",
        _ => "9",
    };
    proof {
        assert(r@ =~= seq![digit_char_spec(d as int)]);
    }
    r
}

/// The decimal numeral of `n`.
pub fn u64_string(n: u64) -> (r: String)
    ensures
        r@ == dec_spec(n as int),
{
    let mut digits: Vec<u64> = Vec::new();
    let mut m: u64 = n;
    #[verifier::loop_isolation(true)]
    loop
        invariant_except_break
            dec_spec(n as int) == (if m > 0 || digits@.len() == 0 {
                dec_spec(m as int)
            } else {
                Seq::<char>::empty()
            }) + rev_chars(digits@),
            forall|i: int| 0 <= i < digits@.len() ==> #[trigger] digits@[i] < 10,
            m == 0 ==> digits@.len() == 0,
        ensures
            dec_spec(n as int) == rev_chars(digits@),
            forall|i: int| 0 <= i < digits@.len() ==> #[trigger] digits@[i] < 10,
            digits@.len() > 0,
        decreases m,
    {
        let ghost digits0 = digits@;
        let ghost m0 = m;
        let d = m % 10;
        m = m / 10;
        digits.push(d);
        proof {
            assert(digits@.drop_last() =~= digits0);
            assert(rev_chars(digits@) == seq![digit_char_spec(d as int)] + rev_chars(digits0));
            if m0 < 10 {
                assert(dec_spec(m0 as int) == seq![digit_char_spec(m0 as int)]);
                assert(dec_spec(n as int) =~= Seq::<char>::empty() + rev_chars(digits@));
                assert(dec_spec(n as int) =~= rev_chars(digits@));
            } else {
                assert(dec_spec(m0 as int) == dec_spec(m as int) + seq![digit_char_spec(d as int)]);
                assert(dec_spec(n as int) =~= dec_spec(m as int) + rev_chars(digits@));
            }
        }
        if m == 0 {
            break ;
        }
    }
    let mut s = String::new();
    let n_digits = digits.len();
    let mut i: usize = n_digits;
    while i > 0
        invariant
            i <= n_digits,
            s@.len() == n_digits - i,
            forall|k: int|
                0 <= k < s@.len() ==> s@[k] == digit_char_spec(
                    digits@[n_digits - 1 - k] as int,
                ),
        decreases i,
    {
        i -= 1;
        s.append(digit_str(digits[i]));
    }
    proof {
        assert forall|k: int| 0 <= k < n_digits implies s@[k] == rev_chars(digits@)[k] by {
            lemma_rev_chars_index(digits@, k);
        }
        lemma_rev_chars_len(digits@);
        assert(s@ =~= rev_chars(digits@));
    }
    s
}

/// The decimal numeral of `n`.
pub fn usize_string(n: usize) -> (r: String)
    ensures
        r@ == dec_spec(n as int),
{
    u64_string(n as u64)
}

/// The decimal numeral of an integer, minus sign included when negative.
pub open spec fn signed_dec_spec(n: int) -> Seq<char> {
    if n < 0 {
        seq!['-'] + dec_spec(-n)
    } else {
        dec_spec(n)
    }
}

/// The decimal numeral of `n`, with a leading minus sign when negative.
pub fn i64_string(n: i64) -> (r: String)
    ensures
        r@ == signed_dec_spec(n as int),
{
    proof {
        reveal_strlit("-");
    }
    if n >= 0 {
        u64_string(n as u64)
    } else {
        let magnitude: u64 = if n == i64::MIN {
            9223372036854775808u64
        } else {
            (-n) as u64
        };
        let mut s = String::from_str("-");
        s.append(u64_string(magnitude).as_str());
        proof {
            assert(s@ =~= seq!['-'] + dec_spec(-(n as int)));
        }
        s
    }
}

/// ASCII whitespace, as trimmed from agent output.
pub open spec fn is_ws_char(c: char) -> bool {
    c == ' ' || c == '\t' || c == '\n' || c == '\r' || c == '\u{b}' || c == '\u{c}'
}

/// `s` without its leading whitespace.
pub open spec fn trim_start_spec(s: Seq<char>) -> Seq<char>
    decreases s.len(),
{
    if s.len() > 0 && is_ws_char(s[0]) {
        trim_start_spec(s.drop_first())
    } else {
        s
    }
}

/// `s` without its trailing whitespace.
pub open spec fn trim_end_spec(s: Seq<char>) -> Seq<char>
    decreases s.len(),
{
    if s.len() > 0 && is_ws_char(s.last()) {
        trim_end_spec(s.drop_last())
    } else {
        s
    }
}

/// `s` without leading and trailing whitespace.
pub open spec fn trim_spec(s: Seq<char>) -> Seq<char> {
    trim_start_spec(trim_end_spec(s))
}

proof fn lemma_trim_end_take(s: Seq<char>, e: int)
    requires
        0 <= e <= s.len(),
        forall|j: int| e <= j < s.len() ==> is_ws_char(#[trigger] s[j]),
        e > 0 ==> !is_ws_char(s[e - 1]),
    ensures
        trim_end_spec(s) == s.take(e),
    decreases s.len(),
{
    if s.len() > e {
        assert(is_ws_char(s.last()));
        assert(s.drop_last() =~= s.take(s.len() - 1));
        lemma_trim_end_take(s.take(s.len() - 1), e);
        assert(s.take(s.len() - 1).take(e) =~= s.take(e));
    } else {
        assert(s.take(e) =~= s);
        if s.len() > 0 {
            assert(!is_ws_char(s.last()));
        }
    }
}

proof fn lemma_trim_start_subrange(s: Seq<char>, b: int)
    requires
        0 <= b <= s.len(),
        forall|j: int| 0 <= j < b ==> is_ws_char(#[trigger] s[j]),
        b < s.len() ==> !is_ws_char(s[b]),
    ensures
        trim_start_spec(s) == s.subrange(b, s.len() as int),
    decreases s.len(),
{
    if b > 0 {
        assert(is_ws_char(s[0]));
        lemma_trim_start_subrange(s.drop_first(), b - 1);
        assert(s.drop_first().subrange(b - 1, s.drop_first().len() as int) =~= s.subrange(
            b,
            s.len() as int,
        ));
    } else {
        assert(s.subrange(0, s.len() as int) =~= s);
        if s.len() > 0 {
            assert(!is_ws_char(s[0]));
        }
    }
}

/// Trimming a trimmed string changes nothing.
pub proof fn lemma_trim_of_clean(s: Seq<char>)
    requires
        s.len() > 0 ==> !is_ws_char(s[0]) && !is_ws_char(s.last()),
    ensures
        trim_spec(s) == s,
{
    lemma_trim_end_take(s, s.len() as int);
    assert(s.take(s.len() as int) =~= s);
    lemma_trim_start_subrange(s, 0);
    assert(s.subrange(0, s.len() as int) =~= s);
}

/// `s` without leading and trailing whitespace.
pub fn trim_str<'a>(s: &'a str) -> (r: &'a str)
    ensures
        r@ == trim_spec(s@),
{
    let len = s.unicode_len();
    let mut e: usize = len;
    #[verifier::loop_isolation(true)]
    while e > 0
        invariant
            len == s@.len(),
            e <= len,
            forall|j: int| e <= j < len ==> is_ws_char(#[trigger] s@[j]),
        ensures
            e <= len,
            forall|j: int| e <= j < len ==> is_ws_char(#[trigger] s@[j]),
            e > 0 ==> !is_ws_char(s@[e - 1]),
        decreases e,
    {
        let c = s.get_char(e - 1);
        if !(c == ' ' || c == '\t' || c == '\n' || c == '\r' || c == '\u{b}' || c == '\u{c}') {
            break ;
        }
        e -= 1;
    }
    let mut b: usize = 0;
    #[verifier::loop_isolation(true)]
    while b < e
        invariant
            len == s@.len(),
            e <= len,
            b <= e,
            forall|j: int| 0 <= j < b ==> is_ws_char(#[trigger] s@[j]),
        ensures
            b <= e,
            forall|j: int| 0 <= j < b ==> is_ws_char(#[trigger] s@[j]),
            b < e ==> !is_ws_char(s@[b as int]),
        decreases e - b,
    {
        let c = s.get_char(b);
        if !(c == ' ' || c == '\t' || c == '\n' || c == '\r' || c == '\u{b}' || c == '\u{c}') {
            break ;
        }
        b += 1;
    }
    proof {
        lemma_trim_end_take(s@, e as int);
        let t = s@.take(e as int);
        lemma_trim_start_subrange(t, b as int);
        assert(t.subrange(b as int, t.len() as int) =~= s@.subrange(b as int, e as int));
    }
    s.substring_char(b, e)
}

/// The index of the first line feed in `s`, or its length if there is none.
pub open spec fn first_nl(s: Seq<char>) -> int
    decreases s.len(),
{
    if s.len() == 0 {
        0
    } else if s[0] == '\n' {
        0
    } else {
        1 + first_nl(s.drop_first())
    }
}

/// How many line feeds `s` holds.
pub open spec fn nl_count(s: Seq<char>) -> int
    decreases s.len(),
{
    if s.len() == 0 {
        0
    } else {
        (if s[0] == '\n' {
            1int
        } else {
            0int
        }) + nl_count(s.drop_first())
    }
}

/// `first_nl` is the least line-feed position.
pub proof fn lemma_first_nl_at(s: Seq<char>, i: int)
    requires
        0 <= i <= s.len(),
        forall|j: int| 0 <= j < i ==> s[j] != '\n',
        i < s.len() ==> s[i] == '\n',
    ensures
        first_nl(s) == i,
    decreases i,
{
    if i > 0 {
        lemma_first_nl_at(s.drop_first(), i - 1);
    } else {
        if s.len() > 0 {
            assert(s[0] == '\n');
        }
    }
}

/// Appending one character adds its line feeds to the count.
pub proof fn lemma_nl_count_push(s: Seq<char>, c: char)
    ensures
        nl_count(s.push(c)) == nl_count(s) + (if c == '\n' {
            1int
        } else {
            0int
        }),
    decreases s.len(),
{
    assert(s.push(c).len() == s.len() + 1);
    assert(nl_count(s.push(c)) == (if s.push(c)[0] == '\n' {
        1int
    } else {
        0int
    }) + nl_count(s.push(c).drop_first()));
    if s.len() == 0 {
        assert(s.push(c)[0] == c);
        assert(s.push(c).drop_first() =~= Seq::<char>::empty());
        assert(nl_count(Seq::<char>::empty()) == 0);
    } else {
        assert(s.push(c)[0] == s[0]);
        assert(s.push(c).drop_first() =~= s.drop_first().push(c));
        lemma_nl_count_push(s.drop_first(), c);
        assert(nl_count(s) == (if s[0] == '\n' {
            1int
        } else {
            0int
        }) + nl_count(s.drop_first()));
    }
}

/// How many line feeds stand in `s`.
pub fn count_nl(s: &str) -> (n: usize)
    ensures
        n == nl_count(s@),
{
    let len = s.unicode_len();
    let mut n: usize = 0;
    let mut i: usize = 0;
    while i < len
        invariant
            i <= len,
            n <= i,
            n == nl_count(s@.take(i as int)),
        decreases len - i,
    {
        let c = s.get_char(i);
        proof {
            lemma_nl_count_push(s@.take(i as int), s@[i as int]);
            assert(s@.take(i as int).push(s@[i as int]) =~= s@.take(i as int + 1));
        }
        if c == '\n' {
            n += 1;
        }
        i += 1;
    }
    proof {
        assert(s@.take(len as int) =~= s@);
    }
    n
}

/// The index of the first line feed, or the length if there is none.
pub fn find_nl(s: &str) -> (i: usize)
    ensures
        i == first_nl(s@),
        i <= s@.len(),
{
    let len = s.unicode_len();
    let mut i: usize = 0;
    #[verifier::loop_isolation(true)]
    while i < len
        invariant
            len == s@.len(),
            i <= len,
            forall|j: int| 0 <= j < i ==> s@[j] != '\n',
        ensures
            i <= len,
            forall|j: int| 0 <= j < i ==> s@[j] != '\n',
            i < len ==> s@[i as int] == '\n',
        decreases len - i,
    {
        if s.get_char(i) == '\n' {
            break ;
        }
        i += 1;
    }
    proof {
        lemma_first_nl_at(s@, i as int);
    }
    i
}

} // verus!
