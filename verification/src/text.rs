//! Plain-text helpers: whitespace tokenization, shared by the query
//! parser and the article field parsers.

use vstd::prelude::*;

verus! {

/// ASCII whitespace: the separator in query strings, property lists and
/// tag lists.
pub open spec fn is_ws(c: char) -> bool {
    c == ' ' || c == '\t' || c == '\n' || c == '\r'
}

/// Exec mirror of `is_ws`.
pub fn ws_char(c: char) -> (r: bool)
    ensures
        r == is_ws(c),
{
    c == ' ' || c == '\t' || c == '\n' || c == '\r'
}

/// The whitespace-separated tokens of `s`, with `cur` the part of the
/// current token already read.
pub open spec fn tokens_from(s: Seq<char>, cur: Seq<char>) -> Seq<Seq<char>>
    decreases s.len(),
{
    if s.len() == 0 {
        if cur.len() == 0 {
            Seq::empty()
        } else {
            seq![cur]
        }
    } else if is_ws(s[0]) {
        if cur.len() == 0 {
            tokens_from(s.drop_first(), Seq::empty())
        } else {
            seq![cur] + tokens_from(s.drop_first(), Seq::empty())
        }
    } else {
        tokens_from(s.drop_first(), cur.push(s[0]))
    }
}

/// The whitespace-separated tokens of `s`.
pub open spec fn tokens_of(s: Seq<char>) -> Seq<Seq<char>> {
    tokens_from(s, Seq::empty())
}

/// No token is empty.
pub proof fn lemma_tokens_nonempty(s: Seq<char>, cur: Seq<char>)
    ensures
        forall|i: int|
            0 <= i < tokens_from(s, cur).len() ==> (#[trigger] tokens_from(s, cur)[i]).len() > 0,
    decreases s.len(),
{
    if s.len() == 0 {
        if cur.len() > 0 {
            assert(tokens_from(s, cur) == seq![cur]);
            assert(tokens_from(s, cur)[0] == cur);
        }
    } else if is_ws(s[0]) {
        lemma_tokens_nonempty(s.drop_first(), Seq::empty());
        let l = tokens_from(s, cur);
        let rest = tokens_from(s.drop_first(), Seq::empty());
        assert forall|i: int| 0 <= i < l.len() implies (#[trigger] l[i]).len() > 0 by {
            if cur.len() > 0 {
                if i > 0 {
                    assert(l[i] == rest[i - 1]);
                } else {
                    assert(l[0] == cur);
                }
            } else {
                assert(l[i] == rest[i]);
            }
        }
    } else {
        lemma_tokens_nonempty(s.drop_first(), cur.push(s[0]));
        let l = tokens_from(s, cur);
        let l2 = tokens_from(s.drop_first(), cur.push(s[0]));
        assert(l == l2);
        assert forall|i: int| 0 <= i < l.len() implies (#[trigger] l[i]).len() > 0 by {
            assert(l[i] == l2[i]);
        }
    }
}

/// Reading a maximal run of `m` non-whitespace characters emits one token
/// made of `cur` followed by that run.
pub proof fn lemma_token_run(s: Seq<char>, cur: Seq<char>, m: int)
    requires
        0 <= m <= s.len(),
        forall|x: int| 0 <= x < m ==> !is_ws(#[trigger] s[x]),
        m == s.len() || is_ws(s[m]),
        cur.len() + m > 0,
    ensures
        tokens_from(s, cur) == seq![cur + s.take(m)] + tokens_from(s.skip(m), Seq::empty()),
    decreases m,
{
    if m == 0 {
        assert(cur + s.take(0) =~= cur);
        assert(s.skip(0) =~= s);
        if s.len() == 0 {
            assert(tokens_from(s, cur) =~= seq![cur] + tokens_from(s, Seq::empty()));
        } else {
            assert(is_ws(s[0]));
            assert(tokens_from(s, cur) == seq![cur] + tokens_from(s.drop_first(), Seq::empty()));
            assert(tokens_from(s, Seq::empty()) == tokens_from(s.drop_first(), Seq::empty()));
        }
    } else {
        assert(!is_ws(s[0]));
        let s2 = s.drop_first();
        let cur2 = cur.push(s[0]);
        assert forall|x: int| 0 <= x < m - 1 implies !is_ws(#[trigger] s2[x]) by {
            assert(s2[x] == s[x + 1]);
        }
        if m - 1 < s2.len() {
            assert(s2[m - 1] == s[m]);
        }
        lemma_token_run(s2, cur2, m - 1);
        assert(cur2 + s2.take(m - 1) =~= cur + s.take(m));
        assert(s2.skip(m - 1) =~= s.skip(m));
    }
}

/// Skipping one leading whitespace character leaves the tokens unchanged.
pub proof fn lemma_ws_skip(s: Seq<char>, i: int)
    requires
        0 <= i < s.len(),
        is_ws(s[i]),
    ensures
        tokens_from(s.skip(i), Seq::empty()) == tokens_from(s.skip(i + 1), Seq::empty()),
{
    let t = s.skip(i);
    assert(t[0] == s[i]);
    assert(t.drop_first() =~= s.skip(i + 1));
}

/// Splits `s` at whitespace into its (non-empty) tokens.
#[verifier::loop_isolation(false)]
pub fn tokenize(s: &str) -> (r: Vec<String>)
    ensures
        r@.map_values(|t: String| t@) == tokens_of(s@),
        forall|i: int| 0 <= i < r@.len() ==> (#[trigger] r@[i])@.len() > 0,
{
    let n = s.unicode_len();
    let mut out: Vec<String> = Vec::new();
    let mut i: usize = 0;
    proof {
        assert(s@.skip(0) =~= s@);
        assert(out@.map_values(|t: String| t@).len() == 0);
        assert(out@.map_values(|t: String| t@) + tokens_from(s@, Seq::empty()) =~= tokens_from(
            s@,
            Seq::empty(),
        ));
    }
    while i < n
        invariant
            i <= n,
            n == s@.len(),
            out@.map_values(|t: String| t@) + tokens_from(s@.skip(i as int), Seq::empty())
                =~= tokens_of(s@),
            forall|t: int| 0 <= t < out@.len() ==> (#[trigger] out@[t])@.len() > 0,
        decreases n - i,
    {
        let c = s.get_char(i);
        if ws_char(c) {
            proof {
                lemma_ws_skip(s@, i as int);
            }
            i = i + 1;
        } else {
            proof {
                assert(!is_ws(s@[i as int]));
            }
            let mut j = i + 1;
            while j < n && !ws_char(s.get_char(j))
                invariant
                    i < j <= n,
                    forall|x: int| i <= x < j ==> !is_ws(#[trigger] s@[x]),
                decreases n - j,
            {
                j = j + 1;
            }
            let tok = String::from_str(s.substring_char(i, j));
            proof {
                let rest = s@.skip(i as int);
                let m = j - i;
                assert forall|x: int| 0 <= x < m implies !is_ws(#[trigger] rest[x]) by {
                    assert(rest[x] == s@[x + i]);
                }
                if m < rest.len() {
                    assert(rest[m] == s@[j as int]);
                }
                lemma_token_run(rest, Seq::empty(), m);
                assert(Seq::<char>::empty() + rest.take(m) =~= tok@);
                assert(rest.skip(m) =~= s@.skip(j as int));
                assert((out@.push(tok)).map_values(|t: String| t@) =~= out@.map_values(
                    |t: String| t@,
                ).push(tok@));
            }
            out.push(tok);
            i = j;
        }
    }
    proof {
        assert(s@.skip(n as int).len() == 0);
        assert(tokens_from(s@.skip(n as int), Seq::empty()).len() == 0);
        assert(out@.map_values(|t: String| t@) + tokens_from(s@.skip(n as int), Seq::empty())
            =~= out@.map_values(|t: String| t@));
    }
    out
}

/// The position of the first occurrence of `c` in `t` (its length when
/// `c` does not occur).
pub open spec fn first_at(t: Seq<char>, c: char) -> int
    decreases t.len(),
{
    if t.len() == 0 {
        0
    } else if t[0] == c {
        0
    } else {
        1 + first_at(t.drop_first(), c)
    }
}

/// `first_at` is the least occurrence.
pub proof fn lemma_first_at_is(t: Seq<char>, c: char, j: int)
    requires
        0 <= j <= t.len(),
        forall|x: int| 0 <= x < j ==> (#[trigger] t[x]) != c,
        j == t.len() || t[j] == c,
    ensures
        first_at(t, c) == j,
    decreases j,
{
    if j == 0 {
    } else {
        assert(t[0] != c);
        let t2 = t.drop_first();
        assert forall|x: int| 0 <= x < j - 1 implies (#[trigger] t2[x]) != c by {
            assert(t2[x] == t[x + 1]);
        }
        if j - 1 < t2.len() {
            assert(t2[j - 1] == t[j]);
        }
        lemma_first_at_is(t2, c, j - 1);
    }
}

/// The character for one decimal digit.
pub open spec fn digit_char(d: int) -> char {
    if d == 0 {
        '0'
    } else if d == 1 {
        '1'
    } else if d == 2 {
        '2'
    } else if d == 3 {
        '3'
    } else if d == 4 {
        '4'
    } else if d == 5 {
        '5'
    } else if d == 6 {
        '6'
    } else if d == 7 {
        '7'
    } else if d == 8 {
        '8'
    } else {
        '9'
    }
}

/// The decimal numeral of `n`, most significant digit first.
pub open spec fn dec_nat(n: nat) -> Seq<char>
    decreases n,
{
    if n < 10 {
        seq![digit_char(n as int)]
    } else {
        dec_nat(n / 10) + seq![digit_char((n % 10) as int)]
    }
}

/// The decimal numeral of a signed value.
pub open spec fn dec_int(v: int) -> Seq<char> {
    if v < 0 {
        seq!['-'] + dec_nat((-v) as nat)
    } else {
        dec_nat(v as nat)
    }
}

/// `s` left-padded with zeros to width `w`.
pub open spec fn zero_pad(s: Seq<char>, w: int) -> Seq<char> {
    if s.len() >= w {
        s
    } else {
        Seq::new((w - s.len()) as nat, |i: int| '0') + s
    }
}

/// Is `c` a decimal digit?
pub open spec fn is_digit(c: char) -> bool {
    c == '0' || c == '1' || c == '2' || c == '3' || c == '4' || c == '5' || c == '6' || c == '7'
        || c == '8' || c == '9'
}

/// The value of one digit character.
pub open spec fn digit_val(c: char) -> int {
    if c == '1' {
        1
    } else if c == '2' {
        2
    } else if c == '3' {
        3
    } else if c == '4' {
        4
    } else if c == '5' {
        5
    } else if c == '6' {
        6
    } else if c == '7' {
        7
    } else if c == '8' {
        8
    } else if c == '9' {
        9
    } else {
        0
    }
}

/// The value of a digit string, most significant digit first.
pub open spec fn digits_val(s: Seq<char>) -> int
    decreases s.len(),
{
    if s.len() == 0 {
        0
    } else {
        digits_val(s.drop_last()) * 10 + digit_val(s.last())
    }
}

/// A numeral denotes its value, consists of digits, and is non-empty.
pub proof fn lemma_dec_nat(n: nat)
    ensures
        digits_val(dec_nat(n)) == n,
        dec_nat(n).len() >= 1,
        forall|i: int| 0 <= i < dec_nat(n).len() ==> is_digit(#[trigger] dec_nat(n)[i]),
    decreases n,
{
    if n < 10 {
        let s = dec_nat(n);
        assert(s.drop_last().len() == 0);
        assert(digits_val(s.drop_last()) == 0);
        assert(s.last() == digit_char(n as int));
        assert(digits_val(s) == digit_val(digit_char(n as int)));
        assert(s[0] == digit_char(n as int));
    } else {
        lemma_dec_nat(n / 10);
        let hd = dec_nat(n / 10);
        let s = dec_nat(n);
        assert(s == hd + seq![digit_char((n % 10) as int)]);
        assert(s.drop_last() =~= hd);
        assert(s.last() == digit_char((n % 10) as int));
        assert(digits_val(s) == digits_val(hd) * 10 + digit_val(digit_char((n % 10) as int)));
        assert forall|i: int| 0 <= i < s.len() implies is_digit(#[trigger] s[i]) by {
            if i < hd.len() {
                assert(s[i] == hd[i]);
            }
        }
    }
}

/// Digit strings have non-negative values that grow with extension.
pub proof fn lemma_digits_val_take(s: Seq<char>, i: int)
    requires
        0 <= i <= s.len(),
        forall|x: int| 0 <= x < s.len() ==> is_digit(#[trigger] s[x]),
    ensures
        0 <= digits_val(s.take(i)) <= digits_val(s),
    decreases s.len() - i,
{
    if i == s.len() {
        assert(s.take(i) =~= s);
        lemma_digits_val_nonneg(s);
    } else {
        lemma_digits_val_take(s, i + 1);
        let a = s.take(i);
        let b = s.take(i + 1);
        assert(b.drop_last() =~= a);
        assert(digits_val(b) == digits_val(a) * 10 + digit_val(s[i]));
        lemma_digits_val_nonneg(a);
    }
}

/// A digit string's value is non-negative.
pub proof fn lemma_digits_val_nonneg(s: Seq<char>)
    ensures
        digits_val(s) >= 0,
    decreases s.len(),
{
    if s.len() > 0 {
        lemma_digits_val_nonneg(s.drop_last());
    }
}

/// A single digit as a string slice.
fn digit_str(d: u64) -> (r: &'static str)
    requires
        d < 10,
    ensures
        r@ == seq![digit_char(d as int)],
{
    if d == 0 {
        proof {
            reveal_strlit("0");
            assert("0"@ =~= seq![digit_char(0)]);
        }
        "0"
    } else if d == 1 {
        proof {
            reveal_strlit("1");
            assert("1"@ =~= seq![digit_char(1)]);
        }
        "1"
    } else if d == 2 {
        proof {
            reveal_strlit("2");
            assert("2"@ =~= seq![digit_char(2)]);
        }
        "2"
    } else if d == 3 {
        proof {
            reveal_strlit("3");
            assert("3"@ =~= seq![digit_char(3)]);
        }
        "3"
    } else if d == 4 {
        proof {
            reveal_strlit("4");
            assert("4"@ =~= seq![digit_char(4)]);
        }
        "4"
    } else if d == 5 {
        proof {
            reveal_strlit("5");
            assert("5"@ =~= seq![digit_char(5)]);
        }
        "5"
    } else if d == 6 {
        proof {
            reveal_strlit("6");
            assert("6"@ =~= seq![digit_char(6)]);
        }
        "6"
    } else if d == 7 {
        proof {
            reveal_strlit("7");
            assert("7"@ =~= seq![digit_char(7)]);
        }
        "7"
    } else if d == 8 {
        proof {
            reveal_strlit("8");
            assert("8"@ =~= seq![digit_char(8)]);
        }
        "8"
    } else {
        proof {
            reveal_strlit("9");
            assert("9"@ =~= seq![digit_char(9)]);
        }
        "9"
    }
}

/// Formats `n` in decimal.
pub fn u64_to_dec(n: u64) -> (r: String)
    ensures
        r@ == dec_nat(n as nat),
    decreases n,
{
    if n < 10 {
        String::from_str(digit_str(n))
    } else {
        let mut s = u64_to_dec(n / 10);
        s.append(digit_str(n % 10));
        s
    }
}

/// Formats `n` in decimal, left-padded with zeros to `w` characters.
#[verifier::loop_isolation(false)]
pub fn pad_u64(n: u64, w: usize) -> (r: String)
    ensures
        r@ == zero_pad(dec_nat(n as nat), w as int),
{
    let d = u64_to_dec(n);
    let len = d.as_str().unicode_len();
    if len >= w {
        return d;
    }
    let mut s = String::new();
    let mut k: usize = len;
    while k < w
        invariant
            len <= k <= w,
            s@ =~= Seq::new((k - len) as nat, |i: int| '0'),
        decreases w - k,
    {
        s.append("0");
        proof {
            reveal_strlit("0");
            assert("0"@ =~= seq!['0']);
            assert(s@ =~= Seq::new((k + 1 - len) as nat, |i: int| '0'));
        }
        k = k + 1;
    }
    s.append(d.as_str());
    proof {
        assert(s@ =~= zero_pad(dec_nat(n as nat), w as int));
    }
    s
}

/// Formats a signed value in decimal.
pub fn i64_to_dec(v: i64) -> (r: String)
    ensures
        r@ == dec_int(v as int),
{
    if v < 0 {
        let mag: u64 = if v == i64::MIN {
            9223372036854775808u64
        } else {
            (-v) as u64
        };
        proof {
            assert(mag == -(v as int));
        }
        let mut s = String::from_str("-");
        proof {
            reveal_strlit("-");
            assert("-"@ =~= seq!['-']);
        }
        s.append(u64_to_dec(mag).as_str());
        proof {
            assert(s@ =~= dec_int(v as int));
        }
        s
    } else {
        u64_to_dec(v as u64)
    }
}

/// Reads a signed decimal numeral back. Exactly inverts `dec_int`: on the
/// numeral of any `v` in `i64` range it returns `Some(v)`.
#[verifier::loop_isolation(false)]
pub fn parse_i64(s: &str) -> (r: Option<i64>)
    ensures
        forall|v: int|
            i64::MIN <= v <= i64::MAX && s@ == dec_int(v) ==> r == Some(v as i64),
{
    let n = s.unicode_len();
    if n == 0 {
        proof {
            assert forall|v: int| i64::MIN <= v <= i64::MAX implies s@ != dec_int(v) by {
                lemma_dec_nat(if v < 0 {
                    (-v) as nat
                } else {
                    v as nat
                });
            }
        }
        return None;
    }
    let neg = s.get_char(0) == '-';
    let start: usize = if neg {
        1
    } else {
        0
    };
    let ghost digits = s@.skip(start as int);
    let mut acc: u64 = 0;
    let mut i: usize = start;
    while i < n
        invariant
            start <= i <= n,
            n == s@.len(),
            digits == s@.skip(start as int),
            forall|x: int| start <= x < i ==> is_digit(#[trigger] s@[x]),
            acc == digits_val(s@.subrange(start as int, i as int)),
        decreases n - i,
    {
        let c = s.get_char(i);
        let d: u64 = if c == '0' {
            0
        } else if c == '1' {
            1
        } else if c == '2' {
            2
        } else if c == '3' {
            3
        } else if c == '4' {
            4
        } else if c == '5' {
            5
        } else if c == '6' {
            6
        } else if c == '7' {
            7
        } else if c == '8' {
            8
        } else if c == '9' {
            9
        } else {
            proof {
                assert(!is_digit(s@[i as int]));
                assert forall|v: int|
                    i64::MIN <= v <= i64::MAX implies s@ != dec_int(v) by {
                    if s@ == dec_int(v) {
                        lemma_not_numeral(s@, v, i as int);
                        assert(s@[0] == '-');
                        assert(start == 1);
                    }
                }
            }
            return None;
        };
        proof {
            assert(d == digit_val(s@[i as int]) && is_digit(s@[i as int]));
        }
        if acc > 922337203685477580u64 || (acc == 922337203685477580u64 && d > 8) {
            proof {
                assert(acc * 10 + d > 9223372036854775808u64);
                assert forall|v: int|
                    i64::MIN <= v <= i64::MAX implies s@ != dec_int(v) by {
                    if s@ == dec_int(v) {
                        if v < 0 {
                            assert(s@[0] == '-');
                            assert(neg && start == 1);
                        } else {
                            lemma_dec_nat(v as nat);
                            assert(is_digit(s@[0]));
                            assert(s@[0] != '-');
                            assert(!neg && start == 0);
                        }
                        lemma_numeral_bounded(s@, v, i as int);
                        assert(false);
                    }
                }
            }
            return None;
        }
        proof {
            assert(s@.subrange(start as int, i as int + 1).drop_last() =~= s@.subrange(
                start as int,
                i as int,
            ));
            assert(s@.subrange(start as int, i as int + 1).last() == s@[i as int]);
        }
        acc = acc * 10 + d;
        i = i + 1;
    }
    proof {
        assert(s@.subrange(start as int, n as int) =~= digits);
    }
    if neg {
        let r: i64 = if acc >= 9223372036854775808u64 {
            i64::MIN
        } else {
            -(acc as i64)
        };
        proof {
            assert forall|v: int|
                i64::MIN <= v <= i64::MAX && s@ == dec_int(v) implies r == v as i64 by {
                lemma_numeral_value(s@, v);
                assert(v < 0) by {
                    if v >= 0 {
                        lemma_dec_nat(v as nat);
                        assert(dec_int(v)[0] == dec_nat(v as nat)[0]);
                        assert(is_digit(s@[0]));
                    }
                }
                assert(digits_val(s@.skip(1)) == -v);
                assert(digits == s@.skip(1));
                assert(acc == -v);
            }
        }
        Some(r)
    } else {
        if acc > i64::MAX as u64 {
            proof {
                assert forall|v: int|
                    i64::MIN <= v <= i64::MAX implies s@ != dec_int(v) by {
                    if s@ == dec_int(v) {
                        lemma_numeral_value(s@, v);
                        assert(v >= 0) by {
                            if v < 0 {
                                assert(s@[0] == '-');
                            }
                        }
                        assert(s@.skip(0) =~= s@);
                        assert(acc == v);
                    }
                }
            }
            return None;
        }
        let r: i64 = acc as i64;
        proof {
            assert forall|v: int|
                i64::MIN <= v <= i64::MAX && s@ == dec_int(v) implies r == v as i64 by {
                lemma_numeral_value(s@, v);
                assert(v >= 0) by {
                    if v < 0 {
                        assert(s@[0] == '-');
                    }
                }
                assert(s@.skip(0) =~= s@);
                assert(acc == v);
            }
        }
        Some(r)
    }
}

/// If `s` were the numeral of `v`, every character past the sign would be
/// a digit.
proof fn lemma_not_numeral(s: Seq<char>, v: int, i: int)
    requires
        s == dec_int(v),
        0 <= i < s.len(),
        !is_digit(s[i]),
    ensures
        v < 0 && i == 0,
{
    lemma_dec_nat(if v < 0 {
        (-v) as nat
    } else {
        v as nat
    });
    if v < 0 {
        if i > 0 {
            assert(s[i] == dec_nat((-v) as nat)[i - 1]);
        }
    } else {
        assert(s[i] == dec_nat(v as nat)[i]);
    }
}

/// The digits of the numeral of `v` read back as `|v|`, and every prefix
/// of them stays within `|v|`.
proof fn lemma_numeral_value(s: Seq<char>, v: int)
    requires
        s == dec_int(v),
    ensures
        v >= 0 ==> digits_val(s) == v,
        v < 0 ==> s.len() > 0 && s[0] == '-' && digits_val(s.skip(1)) == -v,
{
    lemma_dec_nat(if v < 0 {
        (-v) as nat
    } else {
        v as nat
    });
    if v < 0 {
        assert(s.skip(1) =~= dec_nat((-v) as nat));
    }
}

/// A prefix of the numeral's digits never exceeds the value itself, so the
/// accumulator cannot overflow while the input is a genuine numeral.
proof fn lemma_numeral_bounded(s: Seq<char>, v: int, i: int)
    requires
        s == dec_int(v),
        i64::MIN <= v <= i64::MAX,
        0 <= i < s.len(),
        is_digit(s[i]),
    ensures
        ({
            let start: int = if v < 0 {
                1
            } else {
                0
            };
            start <= i ==> digits_val(s.subrange(start, i)) * 10 + digit_val(s[i])
                <= 9223372036854775808
        }),
{
    lemma_numeral_value(s, v);
    let start: int = if v < 0 {
        1
    } else {
        0
    };
    if start <= i {
        let digits = s.skip(start);
        lemma_dec_nat(if v < 0 {
            (-v) as nat
        } else {
            v as nat
        });
        assert forall|x: int| 0 <= x < digits.len() implies is_digit(#[trigger] digits[x]) by {
            if v < 0 {
                assert(digits[x] == dec_nat((-v) as nat)[x]);
            } else {
                assert(digits[x] == dec_nat(v as nat)[x]);
            }
        }
        assert(s.subrange(start, i) =~= digits.take(i - start));
        assert(s.subrange(start, i + 1) =~= digits.take(i - start + 1));
        lemma_digits_val_take(digits, i - start + 1);
        assert(digits.take(i - start + 1).drop_last() =~= digits.take(i - start));
        assert(digits.take(i - start + 1).last() == digits[i - start]);
        assert(digits_val(digits.take(i - start)) * 10 + digit_val(s[i]) == digits_val(
            digits.take(i - start + 1),
        ));
        assert(digits_val(digits) <= 9223372036854775808) by {
            if v < 0 {
                assert(digits_val(digits) == -v);
            } else {
                assert(s.skip(0) =~= s);
                assert(digits_val(digits) == v);
            }
        }
    }
}

} // verus!
