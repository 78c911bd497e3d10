//! The arithmetic challenge of the chat hub: a message `SOLVE: a + b` is
//! answered with `RESULT: c`, where `c` is the sum.

use vstd::prelude::*;

verus! {

/// The characters with the Unicode `White_Space` property, which is what
/// `char::is_whitespace` tests.
pub open spec fn is_space(c: char) -> bool {
    let u = c as u32;
    ||| 0x9 <= u <= 0xd
    ||| u == 0x20
    ||| u == 0x85
    ||| u == 0xa0
    ||| u == 0x1680
    ||| 0x2000 <= u <= 0x200a
    ||| u == 0x2028
    ||| u == 0x2029
    ||| u == 0x202f
    ||| u == 0x205f
    ||| u == 0x3000
}

/// The maximal runs of non-space characters of `s`, in order.
pub open spec fn words(s: Seq<char>) -> Seq<Seq<char>>
    decreases s.len(),
{
    if s.len() == 0 {
        Seq::empty()
    } else {
        let w = words(s.drop_last());
        let c = s.last();
        if is_space(c) {
            w
        } else if s.len() >= 2 && !is_space(s[s.len() - 2]) {
            w.update(w.len() - 1, w.last().push(c))
        } else {
            w.push(seq![c])
        }
    }
}

/// An ASCII decimal digit.
pub open spec fn is_digit(c: char) -> bool {
    48 <= (c as u32) <= 57
}

/// The number that the digits `d` write in base ten.
pub open spec fn digits_value(d: Seq<char>) -> nat
    decreases d.len(),
{
    if d.len() == 0 {
        0
    } else {
        digits_value(d.drop_last()) * 10 + ((d.last() as u32) - 48) as nat
    }
}

/// `s` without the `+` sign that may lead it.
pub open spec fn unsigned_digits(s: Seq<char>) -> Seq<char> {
    if s.len() > 0 && s[0] == '+' {
        s.drop_first()
    } else {
        s
    }
}

/// All characters of `d` are decimal digits.
pub open spec fn all_digits(d: Seq<char>) -> bool {
    forall|i: int| 0 <= i < d.len() ==> is_digit(#[trigger] d[i])
}

/// `str::parse::<u16>`: an optional `+`, then one or more decimal digits
/// whose value fits in 16 bits.
pub open spec fn parse_u16_spec(s: Seq<char>) -> Option<u16> {
    let d = unsigned_digits(s);
    if d.len() > 0 && all_digits(d) && digits_value(d) <= 65535 {
        Some(digits_value(d) as u16)
    } else {
        None
    }
}

/// The message starts with `SOLVE:`.
pub open spec fn starts_with_solve(msg: Seq<char>) -> bool {
    msg.len() >= 6 && msg.subrange(0, 6) == seq!['S', 'O', 'L', 'V', 'E', ':']
}

/// The two numbers of a challenge: the second and fourth words of a message
/// that starts with `SOLVE:` and has at least four words.
pub open spec fn challenge_of(msg: Seq<char>) -> Option<(u16, u16)> {
    let ws = words(msg);
    if starts_with_solve(msg) && ws.len() >= 4 && parse_u16_spec(ws[1]) is Some && parse_u16_spec(
        ws[3],
    ) is Some {
        Some((parse_u16_spec(ws[1])->0, parse_u16_spec(ws[3])->0))
    } else {
        None
    }
}

/// The character of a decimal digit.
pub open spec fn digit_char(d: nat) -> char {
    (48 + d) as char
}

/// `n` written in base ten.
pub open spec fn decimal(n: nat) -> Seq<char>
    decreases n,
{
    if n < 10 {
        seq![digit_char(n)]
    } else {
        decimal(n / 10).push(digit_char(n % 10))
    }
}

/// The answer to a challenge whose sum is `sum`.
pub open spec fn reply_text(sum: nat) -> Seq<char> {
    "RESULT: "@ + decimal(sum)
}

/// Whether `c` is a space (see `is_space`).
pub fn is_whitespace(c: char) -> (b: bool)
    ensures
        b == is_space(c),
{
    let u = c as u32;
    (0x9 <= u && u <= 0xd) || u == 0x20 || u == 0x85 || u == 0xa0 || u == 0x1680 || (0x2000 <= u
        && u <= 0x200a) || u == 0x2028 || u == 0x2029 || u == 0x202f || u == 0x205f || u == 0x3000
}

/// The words of `s` as character ranges.
pub fn split_words(s: &str) -> (ranges: Vec<(usize, usize)>)
    ensures
        ranges@.len() == words(s@).len(),
        forall|k: int|
            0 <= k < ranges@.len() ==> {
                let r = #[trigger] ranges@[k];
                r.0 <= r.1 <= s@.len() && s@.subrange(r.0 as int, r.1 as int) == words(s@)[k]
            },
{
    let n = s.unicode_len();
    let mut ranges: Vec<(usize, usize)> = Vec::new();
    let mut i: usize = 0;
    while i < n
        invariant
            i <= n,
            n == s@.len(),
            ranges@.len() == words(s@.subrange(0, i as int)).len(),
            forall|k: int|
                0 <= k < ranges@.len() ==> {
                    let r = #[trigger] ranges@[k];
                    r.0 <= r.1 <= i && s@.subrange(r.0 as int, r.1 as int) == words(
                        s@.subrange(0, i as int),
                    )[k]
                },
            i > 0 && !is_space(s@[i - 1]) ==> ranges@.len() > 0 && ranges@.last().1 == i,
        decreases n - i,
    {
        let c = s.get_char(i);
        let ghost pre = s@.subrange(0, i as int);
        let ghost post = s@.subrange(0, i as int + 1);
        assert(post.drop_last() =~= pre);
        assert(post.last() == c);
        if is_whitespace(c) {
        } else if i >= 1 && !is_whitespace(s.get_char(i - 1)) {
            assert(post[post.len() - 2] == s@[i - 1]);
            let last = ranges.len() - 1;
            let start = ranges[last].0;
            ranges.set(last, (start, i + 1));
            assert(s@.subrange(start as int, i as int + 1) =~= s@.subrange(start as int, i as int).push(c));
        } else {
            if i >= 1 {
                assert(post[post.len() - 2] == s@[i - 1]);
            }
            ranges.push((i, i + 1));
            assert(s@.subrange(i as int, i as int + 1) =~= seq![c]);
        }
        i = i + 1;
    }
    assert(s@.subrange(0, n as int) =~= s@);
    ranges
}

proof fn lemma_digits_value_prefix(d: Seq<char>, k: int)
    requires
        0 <= k <= d.len(),
    ensures
        digits_value(d.subrange(0, k)) <= digits_value(d),
    decreases d.len(),
{
    if k < d.len() {
        lemma_digits_value_prefix(d.drop_last(), k);
        assert(d.drop_last().subrange(0, k) =~= d.subrange(0, k));
    } else {
        assert(d.subrange(0, k) =~= d);
    }
}

/// `str::parse::<u16>` on `s` (see `parse_u16_spec`).
pub fn parse_u16(s: &str) -> (r: Option<u16>)
    ensures
        r == parse_u16_spec(s@),
{
    let n = s.unicode_len();
    let mut start: usize = 0;
    if n > 0 && s.get_char(0) == '+' {
        start = 1;
    }
    let ghost d = unsigned_digits(s@);
    assert(d =~= s@.subrange(start as int, n as int));
    if start == n {
        return None;
    }
    let mut v: u32 = 0;
    let mut i: usize = start;
    while i < n
        invariant
            start <= i <= n,
            n == s@.len(),
            d == s@.subrange(start as int, n as int),
            d == unsigned_digits(s@),
            d.len() > 0,
            v == digits_value(d.subrange(0, i - start)),
            v <= 65535,
            forall|j: int| 0 <= j < i - start ==> is_digit(#[trigger] d[j]),
        decreases n - i,
    {
        let c = s.get_char(i);
        let u = c as u32;
        if u < 48 || u > 57 {
            assert(!is_digit(d[i - start]));
            assert(!all_digits(d));
            return None;
        }
        assert(d.subrange(0, i - start + 1).drop_last() =~= d.subrange(0, i - start));
        v = v * 10 + (u - 48);
        assert(v == digits_value(d.subrange(0, i - start + 1)));
        if v > 65535 {
            proof {
                lemma_digits_value_prefix(d, i - start + 1);
            }
            return None;
        }
        i = i + 1;
    }
    assert(d.subrange(0, n - start) =~= d);
    Some(v as u16)
}

/// The two numbers of a challenge message, if it is one (see
/// `challenge_of`).
pub fn parse_challenge(msg: &str) -> (r: Option<(u16, u16)>)
    ensures
        r == challenge_of(msg@),
{
    let n = msg.unicode_len();
    if n < 6 {
        return None;
    }
    let head = msg.substring_char(0, 6);
    let expected = "SOLVE:";
    proof {
        reveal_strlit("SOLVE:");
    }
    let mut k: usize = 0;
    while k < 6
        invariant
            k <= 6,
            head@.len() == 6,
            expected@ == seq!['S', 'O', 'L', 'V', 'E', ':'],
            head@ == msg@.subrange(0, 6),
            forall|j: int| 0 <= j < k ==> head@[j] == expected@[j],
        decreases 6 - k,
    {
        if head.get_char(k) != expected.get_char(k) {
            assert(msg@.subrange(0, 6)[k as int] != seq!['S', 'O', 'L', 'V', 'E', ':'][k as int]);
            assert(!starts_with_solve(msg@));
            return None;
        }
        k = k + 1;
    }
    assert(head@ =~= seq!['S', 'O', 'L', 'V', 'E', ':']);
    let ranges = split_words(msg);
    if ranges.len() < 4 {
        return None;
    }
    let first = msg.substring_char(ranges[1].0, ranges[1].1);
    let second = msg.substring_char(ranges[3].0, ranges[3].1);
    match (parse_u16(first), parse_u16(second)) {
        (Some(a), Some(b)) => Some((a, b)),
        _ => None,
    }
}

fn digit_str(d: u32) -> (s: &'static str)
    requires
        d < 10,
    ensures
        s@ == seq![digit_char(d as nat)],
{
    proof {
        reveal_strlit("0");
        reveal_strlit("1");
        reveal_strlit("2");
        reveal_strlit("3");
        reveal_strlit("4");
        reveal_strlit("5");
        reveal_strlit("6");
        reveal_strlit("7");
        reveal_strlit("8");
        reveal_strlit("9");
    }
    match d {
        0 => "0",
        1 => "1",
        2 => "2",
        3 => "3",
        4 => "4",
        5 => "5",
        6 => "6",
        7 => "7",
        8 => "8",
        _ => "9",
    }
}

/// `n` written in base ten (see `decimal`).
pub fn decimal_text(n: u32) -> (s: String)
    ensures
        s@ == decimal(n as nat),
    decreases n,
{
    if n < 10 {
        digit_str(n).to_string()
    } else {
        let mut s = decimal_text(n / 10);
        s.append(digit_str(n % 10));
        s
    }
}

/// The answer to the challenge `a + b`.
pub fn challenge_reply(a: u16, b: u16) -> (reply: String)
    requires
        a + b <= 65535,
    ensures
        reply@ == reply_text((a + b) as nat),
{
    let sum: u16 = a + b;
    let mut reply = "RESULT: ".to_string();
    reply.append(decimal_text(sum as u32).as_str());
    reply
}

proof fn lemma_decimal_digits(n: nat)
    ensures
        decimal(n).len() > 0,
        all_digits(decimal(n)),
        digits_value(decimal(n)) == n,
    decreases n,
{
    if n < 10 {
        assert(digit_char(n) as u32 == 48 + n);
        assert(seq![digit_char(n)].drop_last() =~= Seq::<char>::empty());
        assert(digits_value(Seq::<char>::empty()) == 0);
        assert(decimal(n) == seq![digit_char(n)]);
        assert(digits_value(seq![digit_char(n)]) == n);
    } else {
        lemma_decimal_digits(n / 10);
        let d = decimal(n);
        assert(digit_char(n % 10) as u32 == 48 + n % 10);
        assert(d.drop_last() =~= decimal(n / 10));
        assert(d.last() == digit_char(n % 10));
        assert((n / 10) * 10 + n % 10 == n) by (nonlinear_arith);
        assert(digits_value(d) == digits_value(decimal(n / 10)) * 10 + ((d.last() as u32) - 48) as nat);
        assert forall|i: int| 0 <= i < d.len() implies is_digit(#[trigger] d[i]) by {
            if i < d.len() - 1 {
                assert(d[i] == decimal(n / 10)[i]);
            }
        }
    }
}

/// Parsing the decimal text of a 16-bit number gives the number back.
pub proof fn lemma_parse_decimal_roundtrip(n: u16)
    ensures
        parse_u16_spec(decimal(n as nat)) == Some(n),
{
    lemma_decimal_digits(n as nat);
    let d = decimal(n as nat);
    assert(is_digit(d[0]));
    assert(d[0] != '+');
    assert(unsigned_digits(d) == d);
}

/// No character of `w` is a space.
pub open spec fn no_space(w: Seq<char>) -> bool {
    forall|i: int| 0 <= i < w.len() ==> !is_space(#[trigger] w[i])
}

proof fn lemma_words_push_space(s: Seq<char>, c: char)
    requires
        is_space(c),
    ensures
        words(s.push(c)) == words(s),
{
    assert(s.push(c).drop_last() =~= s);
}

proof fn lemma_words_append_prefix(s: Seq<char>, w: Seq<char>, i: int)
    requires
        s.len() == 0 || is_space(s.last()),
        no_space(w),
        1 <= i <= w.len(),
    ensures
        words(s + w.subrange(0, i)) == words(s).push(w.subrange(0, i)),
    decreases i,
{
    let t = s + w.subrange(0, i);
    assert(!is_space(w[i - 1]));
    if i == 1 {
        assert(t.drop_last() =~= s);
        assert(t.last() == w[0]);
        assert(w.subrange(0, 1) =~= seq![w[0]]);
    } else {
        lemma_words_append_prefix(s, w, i - 1);
        assert(t.drop_last() =~= s + w.subrange(0, i - 1));
        assert(t.last() == w[i - 1]);
        assert(t[t.len() - 2] == w[i - 2]);
        assert(!is_space(w[i - 2]));
        assert(w.subrange(0, i - 1).push(w[i - 1]) =~= w.subrange(0, i));
        assert(words(s).push(w.subrange(0, i - 1)).update(words(s).len() as int, w.subrange(0, i))
            =~= words(s).push(w.subrange(0, i)));
    }
}

/// Appending a word right after a space (or at the start) adds that word.
proof fn lemma_words_append_word(s: Seq<char>, w: Seq<char>)
    requires
        s.len() == 0 || is_space(s.last()),
        no_space(w),
        w.len() > 0,
    ensures
        words(s + w) == words(s).push(w),
{
    lemma_words_append_prefix(s, w, w.len() as int);
    assert(w.subrange(0, w.len() as int) =~= w);
}

proof fn lemma_decimal_no_space(n: nat)
    ensures
        no_space(decimal(n)),
        decimal(n).len() > 0,
{
    lemma_decimal_digits(n);
    assert forall|i: int| 0 <= i < decimal(n).len() implies !is_space(#[trigger] decimal(n)[i]) by {
        assert(is_digit(decimal(n)[i]));
    }
}

/// The message `SOLVE: a + b`, with both numbers in base ten, is the
/// challenge of `a` and `b`, for all 16-bit `a` and `b`.
pub proof fn lemma_challenge_of_written_sum(a: u16, b: u16)
    ensures
        challenge_of(
            seq!['S', 'O', 'L', 'V', 'E', ':', ' '] + decimal(a as nat) + seq![' ', '+', ' '] + decimal(
                b as nat,
            ),
        ) == Some((a, b)),
{
    let solve = seq!['S', 'O', 'L', 'V', 'E', ':'];
    let da = decimal(a as nat);
    let db = decimal(b as nat);
    let plus = seq!['+'];
    let msg = seq!['S', 'O', 'L', 'V', 'E', ':', ' '] + da + seq![' ', '+', ' '] + db;
    lemma_decimal_no_space(a as nat);
    lemma_decimal_no_space(b as nat);
    lemma_parse_decimal_roundtrip(a);
    lemma_parse_decimal_roundtrip(b);
    assert(no_space(solve));
    assert(no_space(plus));
    let e = Seq::<char>::empty();
    lemma_words_append_word(e, solve);
    assert(e + solve =~= solve);
    assert(words(e) =~= Seq::<Seq<char>>::empty());
    let m1 = solve.push(' ');
    lemma_words_push_space(solve, ' ');
    lemma_words_append_word(m1, da);
    let m2 = m1 + da;
    let m3 = m2.push(' ');
    lemma_words_push_space(m2, ' ');
    lemma_words_append_word(m3, plus);
    let m4 = m3 + plus;
    let m5 = m4.push(' ');
    lemma_words_push_space(m4, ' ');
    lemma_words_append_word(m5, db);
    assert(msg =~= m5 + db);
    let ws = words(msg);
    assert(ws =~= seq![solve, da, plus, db]);
    assert(msg.subrange(0, 6) =~= solve);
}

} // verus!
