//! Small text helpers the engine needs: decimal rendering of counters,
//! prefix and suffix tests on paths, and splitting tool output into lines.

use vstd::prelude::*;
use vstd::string::StrSliceExecFns;

verus! {

/// The character for one decimal digit.
pub open spec fn digit_char(d: int) -> char {
    if d == 0 {
        '0'
    } else if d == 1 {
        '1'
    } else if d == 2 {
        '2'
    } else if d == 3 {
        '3'
    } else if d == 4 {
        '4'
    } else if d == 5 {
        '5'
    } else if d == 6 {
        '6'
    } else if d == 7 {
        '7'
    } else if d == 8 {
        '8'
    } else {
        '9'
    }
}

/// The decimal rendering of a number, most significant digit first.
pub open spec fn dec_digits(n: nat) -> Seq<char>
    decreases n,
{
    if n < 10 {
        seq![digit_char(n as int)]
    } else {
        dec_digits((n / 10) as nat).push(digit_char((n % 10) as int))
    }
}

/// Relies on String::push: appends the given character at the end of the
/// string.
#[verifier::external_body]
pub fn push_char(s: &mut String, c: char)
    ensures
        final(s)@ == old(s)@.push(c),
{
    s.push(c);
}

fn push_digit(s: &mut String, d: u64)
    requires
        d < 10,
    ensures
        final(s)@ == old(s)@.push(digit_char(d as int)),
{
    let c: char = if d == 0 {
        '0'
    } else if d == 1 {
        '1'
    } else if d == 2 {
        '2'
    } else if d == 3 {
        '3'
    } else if d == 4 {
        '4'
    } else if d == 5 {
        '5'
    } else if d == 6 {
        '6'
    } else if d == 7 {
        '7'
    } else if d == 8 {
        '8'
    } else {
        '9'
    };
    push_char(s, c);
}

/// Appends the decimal rendering of `n`.
pub fn push_u64_dec(s: &mut String, n: u64)
    ensures
        final(s)@ == old(s)@ + dec_digits(n as nat),
    decreases n,
{
    if n < 10 {
        let ghost before = s@;
        push_digit(s, n);
        proof {
            assert(s@ =~= before + dec_digits(n as nat));
        }
    } else {
        push_u64_dec(s, n / 10);
        let ghost mid = s@;
        push_digit(s, n % 10);
        proof {
            assert(s@ =~= old(s)@ + dec_digits(n as nat));
        }
    }
}

/// The decimal rendering of `n` as a fresh string.
pub fn u64_to_dec(n: u64) -> (s: String)
    ensures
        s@ == dec_digits(n as nat),
{
    let mut s = String::new();
    push_u64_dec(&mut s, n);
    proof {
        assert(s@ =~= dec_digits(n as nat));
    }
    s
}

/// `p` is a prefix of `s`.
pub open spec fn is_char_prefix(p: Seq<char>, s: Seq<char>) -> bool {
    p.len() <= s.len() && p == s.subrange(0, p.len() as int)
}

/// `p` is a suffix of `s`.
pub open spec fn is_char_suffix(p: Seq<char>, s: Seq<char>) -> bool {
    p.len() <= s.len() && p == s.subrange(s.len() - p.len(), s.len() as int)
}

/// `p` occurs somewhere inside `s`.
pub open spec fn contains_sub(s: Seq<char>, p: Seq<char>) -> bool {
    exists|i: int| 0 <= i && i + p.len() <= s.len() && p == #[trigger] s.subrange(i, i + p.len())
}

/// Whether the string starts with the given prefix, character-wise.
pub fn str_starts_with(s: &str, p: &str) -> (r: bool)
    ensures
        r == is_char_prefix(p@, s@),
{
    let sl = s.unicode_len();
    let pl = p.unicode_len();
    if pl > sl {
        proof {
            assert(!is_char_prefix(p@, s@));
        }
        return false;
    }
    let mut i: usize = 0;
    while i < pl
        invariant
            pl <= sl,
            pl == p@.len(),
            sl == s@.len(),
            i <= pl,
            forall|k: int| 0 <= k < i ==> p@[k] == s@[k],
        decreases pl - i,
    {
        if s.get_char(i) != p.get_char(i) {
            proof {
                assert(p@[i as int] != s@.subrange(0, p@.len() as int)[i as int]);
            }
            return false;
        }
        i = i + 1;
    }
    proof {
        assert(p@ =~= s@.subrange(0, p@.len() as int));
    }
    true
}

/// Whether the string ends with the given suffix, character-wise.
pub fn str_ends_with(s: &str, p: &str) -> (r: bool)
    ensures
        r == is_char_suffix(p@, s@),
{
    let sl = s.unicode_len();
    let pl = p.unicode_len();
    if pl > sl {
        proof {
            assert(!is_char_suffix(p@, s@));
        }
        return false;
    }
    let off = sl - pl;
    let mut i: usize = 0;
    while i < pl
        invariant
            pl <= sl,
            pl == p@.len(),
            sl == s@.len(),
            off == sl - pl,
            i <= pl,
            forall|k: int| 0 <= k < i ==> p@[k] == s@[off + k],
        decreases pl - i,
    {
        if s.get_char(off + i) != p.get_char(i) {
            proof {
                assert(p@[i as int] != s@.subrange(s@.len() - p@.len(), s@.len() as int)[i as int]);
            }
            return false;
        }
        i = i + 1;
    }
    proof {
        assert(p@ =~= s@.subrange(s@.len() - p@.len(), s@.len() as int));
    }
    true
}

/// Whether `p` occurs somewhere inside `s`, character-wise.
pub fn str_contains_sub(s: &str, p: &str) -> (r: bool)
    ensures
        r == contains_sub(s@, p@),
{
    let sl = s.unicode_len();
    let pl = p.unicode_len();
    if pl == 0 {
        proof {
            assert(p@ =~= s@.subrange(0, 0 + p@.len() as int));
            assert(contains_sub(s@, p@));
        }
        return true;
    }
    if pl > sl {
        proof {
            assert(!contains_sub(s@, p@));
        }
        return false;
    }
    let stop = sl - pl + 1;
    let mut i: usize = 0;
    while i < stop
        invariant
            0 < pl <= sl,
            pl == p@.len(),
            sl == s@.len(),
            stop == sl - pl + 1,
            i <= stop,
            forall|k: int| 0 <= k < i ==> p@ != #[trigger] s@.subrange(k, k + p@.len()),
        decreases stop - i,
    {
        let mut j: usize = 0;
        let mut matched = true;
        while j < pl
            invariant
                0 < pl <= sl,
                pl == p@.len(),
                sl == s@.len(),
                i + pl <= sl,
                j <= pl,
                matched ==> forall|k: int| 0 <= k < j ==> p@[k] == s@[i + k],
                !matched ==> p@ != s@.subrange(i as int, i + p@.len()),
            decreases pl - j,
        {
            if s.get_char(i + j) != p.get_char(j) {
                proof {
                    if matched {
                        assert(p@[j as int] != s@.subrange(i as int, i + p@.len())[j as int]);
                    }
                }
                matched = false;
            }
            j = j + 1;
        }
        if matched {
            proof {
                assert(p@ =~= s@.subrange(i as int, i + p@.len()));
            }
            return true;
        }
        i = i + 1;
    }
    proof {
        assert forall|k: int| 0 <= k && k + p@.len() <= s@.len() implies p@ != #[trigger] s@.subrange(
            k,
            k + p@.len(),
        ) by {
            assert(k < stop);
        }
    }
    false
}

/// One scanning step over tool output: newline closes the current token,
/// carriage returns are dropped, any other character extends the token.
pub open spec fn scan_ids(s: Seq<char>, acc: Seq<Seq<char>>, cur: Seq<char>) -> Seq<Seq<char>>
    decreases s.len(),
{
    if s.len() == 0 {
        if cur.len() > 0 {
            acc.push(cur)
        } else {
            acc
        }
    } else if s[0] == '\n' {
        scan_ids(
            s.drop_first(),
            if cur.len() > 0 {
                acc.push(cur)
            } else {
                acc
            },
            Seq::empty(),
        )
    } else if s[0] == '\r' {
        scan_ids(s.drop_first(), acc, cur)
    } else {
        scan_ids(s.drop_first(), acc, cur.push(s[0]))
    }
}

/// The non-empty lines of `s`: how the engine reads an id-list answer of
/// the external tool.
pub open spec fn id_list_of(s: Seq<char>) -> Seq<Seq<char>> {
    scan_ids(s, Seq::empty(), Seq::empty())
}

/// Splits tool output into its non-empty lines.
pub fn parse_id_lines(s: &str) -> (ids: Vec<String>)
    ensures
        ids.deep_view() == id_list_of(s@),
{
    let n = s.unicode_len();
    let mut acc: Vec<String> = Vec::new();
    let mut cur = String::new();
    let mut i: usize = 0;
    proof {
        assert(s@.skip(0) =~= s@);
        assert(acc.deep_view() =~= Seq::<Seq<char>>::empty());
        assert(cur@ =~= Seq::<char>::empty());
    }
    while i < n
        invariant
            n == s@.len(),
            i <= n,
            id_list_of(s@) == scan_ids(s@.skip(i as int), acc.deep_view(), cur@),
        decreases n - i,
    {
        let ghost rest = s@.skip(i as int);
        let ghost acc0 = acc.deep_view();
        let ghost cur0 = cur@;
        proof {
            assert(rest.len() > 0);
            assert(rest[0] == s@[i as int]);
            assert(rest.drop_first() =~= s@.skip(i as int + 1));
        }
        let c = s.get_char(i);
        if c == '\n' {
            if cur.unicode_len() > 0 {
                acc.push(cur);
                cur = String::new();
                proof {
                    assert(acc.deep_view() =~= acc0.push(cur0));
                    assert(scan_ids(rest, acc0, cur0) == scan_ids(
                        rest.drop_first(),
                        acc0.push(cur0),
                        Seq::empty(),
                    ));
                }
            } else {
                proof {
                    assert(scan_ids(rest, acc0, cur0) == scan_ids(
                        rest.drop_first(),
                        acc0,
                        Seq::empty(),
                    ));
                    assert(cur@ =~= Seq::<char>::empty());
                }
            }
        } else if c == '\r' {
            proof {
                assert(scan_ids(rest, acc0, cur0) == scan_ids(rest.drop_first(), acc0, cur0));
            }
        } else {
            push_char(&mut cur, c);
            proof {
                assert(scan_ids(rest, acc0, cur0) == scan_ids(
                    rest.drop_first(),
                    acc0,
                    cur0.push(c),
                ));
            }
        }
        i = i + 1;
    }
    proof {
        assert(s@.skip(n as int) =~= Seq::<char>::empty());
    }
    if cur.unicode_len() > 0 {
        acc.push(cur);
    }
    acc
}


/// Whether two string slices hold the same characters.
pub fn str_eq(a: &str, b: &str) -> (r: bool)
    ensures
        r == (a@ == b@),
{
    let al = a.unicode_len();
    let bl = b.unicode_len();
    if al != bl {
        return false;
    }
    let mut i: usize = 0;
    while i < al
        invariant
            al == a@.len(),
            al == b@.len(),
            i <= al,
            forall|k: int| 0 <= k < i ==> a@[k] == b@[k],
        decreases al - i,
    {
        if a.get_char(i) != b.get_char(i) {
            return false;
        }
        i = i + 1;
    }
    proof {
        assert(a@ =~= b@);
    }
    true
}


/// The value of one decimal digit character.
pub open spec fn digit_val(c: char) -> int {
    if c == '0' {
        0
    } else if c == '1' {
        1
    } else if c == '2' {
        2
    } else if c == '3' {
        3
    } else if c == '4' {
        4
    } else if c == '5' {
        5
    } else if c == '6' {
        6
    } else if c == '7' {
        7
    } else if c == '8' {
        8
    } else {
        9
    }
}

/// Whether a character is a decimal digit.
pub open spec fn is_digit(c: char) -> bool {
    c == '0' || c == '1' || c == '2' || c == '3' || c == '4' || c == '5' || c == '6' || c == '7'
        || c == '8' || c == '9'
}

/// The number read from a digit string, most significant digit first.
pub open spec fn parse_digits(s: Seq<char>) -> nat
    decreases s.len(),
{
    if s.len() == 0 {
        0
    } else {
        parse_digits(s.drop_last()) * 10 + digit_val(s.last()) as nat
    }
}

/// Ten to the given power.
pub open spec fn pow10(w: nat) -> nat
    decreases w,
{
    if w == 0 {
        1
    } else {
        10 * pow10((w - 1) as nat)
    }
}

/// The number rendered as exactly `w` digits, leading zeros included.
pub open spec fn fixed_digits(n: nat, w: nat) -> Seq<char>
    decreases w,
{
    if w == 0 {
        Seq::empty()
    } else {
        fixed_digits(n / 10, (w - 1) as nat).push(digit_char((n % 10) as int))
    }
}

/// Every character of a fixed-width rendering is a digit, and the
/// rendering has exactly the asked width.
pub proof fn lemma_fixed_digits_shape(n: nat, w: nat)
    ensures
        fixed_digits(n, w).len() == w,
        forall|k: int| 0 <= k < w ==> is_digit(#[trigger] fixed_digits(n, w)[k]),
    decreases w,
{
    if w > 0 {
        lemma_fixed_digits_shape(n / 10, (w - 1) as nat);
        assert forall|k: int| 0 <= k < w implies is_digit(#[trigger] fixed_digits(n, w)[k]) by {
            if k < w - 1 {
                assert(fixed_digits(n, w)[k] == fixed_digits(n / 10, (w - 1) as nat)[k]);
            }
        }
    }
}

/// Reading back a fixed-width rendering returns the number, as long as it
/// fits the width.
pub proof fn lemma_fixed_digits_round_trip(n: nat, w: nat)
    requires
        n < pow10(w),
    ensures
        parse_digits(fixed_digits(n, w)) == n,
    decreases w,
{
    if w == 0 {
    } else {
        assert(pow10(w) == 10 * pow10((w - 1) as nat));
        assert(n / 10 < pow10((w - 1) as nat)) by (nonlinear_arith)
            requires
                n < 10 * pow10((w - 1) as nat),
                pow10((w - 1) as nat) >= 0,
        ;
        lemma_fixed_digits_round_trip(n / 10, (w - 1) as nat);
        lemma_fixed_digits_shape(n / 10, (w - 1) as nat);
        let s = fixed_digits(n, w);
        assert(s.drop_last() =~= fixed_digits(n / 10, (w - 1) as nat));
        assert(digit_val(digit_char((n % 10) as int)) == n % 10);
        assert(parse_digits(s) == (n / 10) * 10 + n % 10);
        assert((n / 10) * 10 + n % 10 == n) by (nonlinear_arith);
    }
}

/// Appends the fixed-width rendering of `n`.
pub fn push_fixed_digits(s: &mut String, n: u64, w: u8)
    ensures
        final(s)@ == old(s)@ + fixed_digits(n as nat, w as nat),
    decreases w,
{
    if w == 0 {
        proof {
            assert(s@ =~= old(s)@ + fixed_digits(n as nat, 0));
        }
    } else {
        push_fixed_digits(s, n / 10, w - 1);
        push_digit(s, n % 10);
        proof {
            assert(s@ =~= old(s)@ + fixed_digits(n as nat, w as nat));
        }
    }
}

/// Whether a character is a decimal digit, and its value.
pub fn digit_of(c: char) -> (r: Option<u8>)
    ensures
        match r {
            Some(d) => is_digit(c) && d as int == digit_val(c) && d < 10,
            None => !is_digit(c),
        },
{
    if c == '0' {
        Some(0)
    } else if c == '1' {
        Some(1)
    } else if c == '2' {
        Some(2)
    } else if c == '3' {
        Some(3)
    } else if c == '4' {
        Some(4)
    } else if c == '5' {
        Some(5)
    } else if c == '6' {
        Some(6)
    } else if c == '7' {
        Some(7)
    } else if c == '8' {
        Some(8)
    } else if c == '9' {
        Some(9)
    } else {
        None
    }
}

/// The first position before `n` holding the character, or -1.
pub open spec fn first_char_at(s: Seq<char>, c: char, n: int) -> int
    decreases n,
{
    if n <= 0 {
        -1
    } else if first_char_at(s, c, n - 1) >= 0 {
        first_char_at(s, c, n - 1)
    } else if s[n - 1] == c {
        n - 1
    } else {
        -1
    }
}

/// The first position of the character in the string, or -1.
pub open spec fn first_char_idx(s: Seq<char>, c: char) -> int {
    first_char_at(s, c, s.len() as int)
}

proof fn lemma_first_char_mono(s: Seq<char>, c: char, m: int, n: int)
    requires
        0 <= m <= n,
        first_char_at(s, c, m) >= 0,
    ensures
        first_char_at(s, c, n) == first_char_at(s, c, m),
    decreases n,
{
    if n > m {
        lemma_first_char_mono(s, c, m, n - 1);
    }
}

proof fn lemma_first_char_none(s: Seq<char>, c: char, n: int)
    requires
        forall|k: int| 0 <= k < n ==> s[k] != c,
    ensures
        first_char_at(s, c, n) == -1,
    decreases n,
{
    if n > 0 {
        lemma_first_char_none(s, c, n - 1);
    }
}

/// Finds the first occurrence of a character.
pub fn find_char(s: &str, c: char) -> (r: Option<usize>)
    ensures
        match r {
            Some(i) => i < s@.len() && first_char_idx(s@, c) == i as int && s@[i as int] == c,
            None => first_char_idx(s@, c) == -1,
        },
{
    let n = s.unicode_len();
    let mut i: usize = 0;
    while i < n
        invariant
            n == s@.len(),
            i <= n,
            forall|k: int| 0 <= k < i ==> s@[k] != c,
        decreases n - i,
    {
        if s.get_char(i) == c {
            proof {
                lemma_first_char_none(s@, c, i as int);
                assert(first_char_at(s@, c, i as int + 1) == i as int);
                lemma_first_char_mono(s@, c, i as int + 1, s@.len() as int);
            }
            return Some(i);
        }
        i = i + 1;
    }
    proof {
        lemma_first_char_none(s@, c, s@.len() as int);
    }
    None
}

} // verus!
