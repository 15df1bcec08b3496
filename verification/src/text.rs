//! Characters, decimal digit strings, whitespace trimming and line splitting:
//! the textual ground the history formats are built on.
use vstd::prelude::*;
use vstd::string::*;

verus! {

/// A decimal digit.
pub open spec fn is_digit(c: char) -> bool {
    '0' <= c && c <= '9'
}

/// The numeric value of a decimal digit character.
pub open spec fn digit_val(c: char) -> nat {
    (c as nat - '0' as nat) as nat
}

/// The digit character for a value below ten.
pub open spec fn digit_char(d: nat) -> char {
    if d == 0 {
        '0'
    } else if d == 1 {
        '1'
    } else if d == 2 {
        '2'
    } else if d == 3 {
        '3'
    } else if d == 4 {
        '4'
    } else if d == 5 {
        '5'
    } else if d == 6 {
        '6'
    } else if d == 7 {
        '7'
    } else if d == 8 {
        '8'
    } else {
        '9'
    }
}

/// Every character of `s` is a decimal digit.
pub open spec fn all_digits(s: Seq<char>) -> bool {
    forall|i: int| 0 <= i < s.len() ==> is_digit(#[trigger] s[i])
}

/// The value of a digit string read in base ten (the empty string reads as 0).
pub open spec fn digits_val(s: Seq<char>) -> nat
    decreases s.len(),
{
    if s.len() == 0 {
        0
    } else {
        digits_val(s.drop_last()) * 10 + digit_val(s.last())
    }
}

/// The decimal rendering of `n`, without leading zeros (just "0" for zero).
pub open spec fn dec_str(n: nat) -> Seq<char>
    decreases n,
{
    if n < 10 {
        seq![digit_char(n)]
    } else {
        dec_str(n / 10) + seq![digit_char(n % 10)]
    }
}

/// Ten to the `k`.
pub open spec fn pow10(k: nat) -> nat
    decreases k,
{
    if k == 0 {
        1
    } else {
        10 * pow10((k - 1) as nat)
    }
}

/// Rendering a number and reading it back gives the number again; the
/// rendering is a nonempty digit string.
pub proof fn lemma_dec_str_val(n: nat)
    ensures
        dec_str(n).len() >= 1,
        all_digits(dec_str(n)),
        digits_val(dec_str(n)) == n,
    decreases n,
{
    if n < 10 {
        assert(dec_str(n) =~= seq![digit_char(n)]);
        assert(dec_str(n).drop_last() =~= Seq::<char>::empty());
        assert(digits_val(Seq::<char>::empty()) == 0);
        assert(digits_val(dec_str(n)) == digit_val(digit_char(n)));
        assert(digit_val(digit_char(n)) == n);
    } else {
        lemma_dec_str_val(n / 10);
        let tail = seq![digit_char(n % 10)];
        assert(dec_str(n) =~= dec_str(n / 10) + tail);
        assert((dec_str(n / 10) + tail).drop_last() =~= dec_str(n / 10));
        assert((dec_str(n / 10) + tail).last() == digit_char(n % 10));
        assert(digits_val(dec_str(n)) == (n / 10) * 10 + n % 10);
        assert((n / 10) * 10 + n % 10 == n) by (nonlinear_arith);
        assert(forall|i: int|
            0 <= i < dec_str(n).len() ==> is_digit(#[trigger] dec_str(n)[i]));
    }
}

/// A number at least `pow10(k)` renders to at least `k + 1` digits.
pub proof fn lemma_dec_str_len(n: nat, k: nat)
    requires
        n >= pow10(k),
    ensures
        dec_str(n).len() >= k + 1,
    decreases k,
{
    lemma_dec_str_val(n);
    if k > 0 {
        assert(pow10(k) == 10 * pow10((k - 1) as nat));
        assert(pow10((k - 1) as nat) >= 1) by {
            lemma_pow10_pos((k - 1) as nat);
        }
        assert(n >= 10);
        assert(n / 10 >= pow10((k - 1) as nat)) by (nonlinear_arith)
            requires n >= 10 * pow10((k - 1) as nat);
        lemma_dec_str_len(n / 10, (k - 1) as nat);
        assert(dec_str(n) =~= dec_str(n / 10) + seq![digit_char(n % 10)]);
    }
}

pub proof fn lemma_pow10_pos(k: nat)
    ensures
        pow10(k) >= 1,
    decreases k,
{
    if k > 0 {
        lemma_pow10_pos((k - 1) as nat);
    }
}

/// Reading a longer prefix of a digit string never gives a smaller value.
pub proof fn lemma_digits_val_prefix_mono(s: Seq<char>, i: int, j: int)
    requires
        0 <= i <= j <= s.len(),
    ensures
        digits_val(s.subrange(0, i)) <= digits_val(s.subrange(0, j)),
    decreases j - i,
{
    if i < j {
        lemma_digits_val_prefix_mono(s, i, j - 1);
        let p = s.subrange(0, j - 1);
        let q = s.subrange(0, j);
        assert(q.drop_last() =~= p);
        assert(digits_val(q) == digits_val(p) * 10 + digit_val(q.last()));
        assert(digits_val(p) * 10 >= digits_val(p)) by (nonlinear_arith);
    }
}

/// A Unicode whitespace character: the White_Space set that trimming
/// removes — tab through carriage return, space, next line, no-break space,
/// ogham space mark, the en-quad through hair-space range, the line and
/// paragraph separators, narrow no-break space, medium mathematical space,
/// and ideographic space.
pub open spec fn is_ws(c: char) -> bool {
    let u = c as u32;
    (9 <= u && u <= 13) || u == 32 || u == 0x85 || u == 0xA0 || u == 0x1680 || (0x2000 <= u && u
        <= 0x200A) || u == 0x2028 || u == 0x2029 || u == 0x202F || u == 0x205F || u == 0x3000
}

/// `s` with leading whitespace removed.
pub open spec fn trim_start_spec(s: Seq<char>) -> Seq<char>
    decreases s.len(),
{
    if s.len() > 0 && is_ws(s[0]) {
        trim_start_spec(s.skip(1))
    } else {
        s
    }
}

/// `s` with trailing whitespace removed.
pub open spec fn trim_end_spec(s: Seq<char>) -> Seq<char>
    decreases s.len(),
{
    if s.len() > 0 && is_ws(s.last()) {
        trim_end_spec(s.drop_last())
    } else {
        s
    }
}

/// `s` with leading and trailing whitespace removed.
pub open spec fn trim_spec(s: Seq<char>) -> Seq<char> {
    trim_end_spec(trim_start_spec(s))
}

proof fn lemma_trim_start_at(s: Seq<char>, a: int)
    requires
        0 <= a <= s.len(),
        forall|i: int| 0 <= i < a ==> is_ws(#[trigger] s[i]),
        a < s.len() ==> !is_ws(s[a]),
    ensures
        trim_start_spec(s) =~= s.skip(a),
    decreases a,
{
    if a == 0 {
        assert(s.skip(0) =~= s);
    } else {
        assert(is_ws(s[0]));
        lemma_trim_start_at(s.skip(1), a - 1);
        assert(s.skip(1).skip(a - 1) =~= s.skip(a));
    }
}

proof fn lemma_trim_end_at(s: Seq<char>, b: int)
    requires
        0 <= b <= s.len(),
        forall|i: int| b <= i < s.len() ==> is_ws(#[trigger] s[i]),
        b > 0 ==> !is_ws(s[b - 1]),
    ensures
        trim_end_spec(s) =~= s.subrange(0, b),
    decreases s.len() - b,
{
    if b == s.len() {
        if s.len() == 0 || !is_ws(s.last()) {
            assert(s.subrange(0, s.len() as int) =~= s);
        } else {
            assert(false);
        }
    } else {
        assert(is_ws(s.last()));
        lemma_trim_end_at(s.drop_last(), b);
        assert(s.drop_last().subrange(0, b) =~= s.subrange(0, b));
    }
}

/// Whether `s` ends in `c`; the executable form of the spec below.
pub fn ends_with_char(s: &str, c: char) -> (r: bool)
    ensures
        r == (s@.len() > 0 && s@.last() == c),
{
    let n = s.unicode_len();
    if n == 0 {
        false
    } else {
        s.get_char(n - 1) == c
    }
}

/// Whether the character at position `i` is whitespace.
fn ws_at(s: &str, i: usize) -> (r: bool)
    requires
        i < s@.len(),
    ensures
        r == is_ws(s@[i as int]),
{
    let u = s.get_char(i) as u32;
    (9 <= u && u <= 13) || u == 32 || u == 0x85 || u == 0xA0 || u == 0x1680 || (0x2000 <= u && u
        <= 0x200A) || u == 0x2028 || u == 0x2029 || u == 0x202F || u == 0x205F || u == 0x3000
}

/// `s` with leading and trailing whitespace removed, as a fresh string.
pub fn trim_str(s: &str) -> (r: String)
    ensures
        r@ == trim_spec(s@),
{
    let n = s.unicode_len();
    let mut a: usize = 0;
    while a < n && ws_at(s, a)
        invariant
            0 <= a <= n,
            n == s@.len(),
            forall|i: int| 0 <= i < a ==> is_ws(#[trigger] s@[i]),
        decreases n - a,
    {
        a = a + 1;
    }
    if a == n {
        proof {
            lemma_trim_start_at(s@, a as int);
            assert(s@.skip(n as int) =~= Seq::<char>::empty());
            assert(trim_end_spec(Seq::<char>::empty()) =~= Seq::<char>::empty());
        }
        String::new()
    } else {
        let mut b: usize = n;
        while b > a && ws_at(s, b - 1)
            invariant
                a <= b <= n,
                n == s@.len(),
                a < n,
                !is_ws(s@[a as int]),
                forall|i: int| b <= i < n ==> is_ws(#[trigger] s@[i]),
            decreases b,
        {
            b = b - 1;
        }
        proof {
            lemma_trim_start_at(s@, a as int);
            lemma_trim_end_at(s@.skip(a as int), b - a);
            assert(s@.skip(a as int).subrange(0, b - a) =~= s@.subrange(a as int, b as int));
        }
        let piece = s.substring_char(a, b);
        piece.to_owned()
    }
}

/// The index of the first newline in `s`, or its length if there is none.
pub open spec fn first_nl(s: Seq<char>) -> int
    decreases s.len(),
{
    if s.len() == 0 {
        0
    } else if s[0] == '\n' {
        0
    } else {
        1 + first_nl(s.skip(1))
    }
}

pub proof fn lemma_first_nl(s: Seq<char>)
    ensures
        0 <= first_nl(s) <= s.len(),
        first_nl(s) < s.len() ==> s[first_nl(s)] == '\n',
        forall|i: int| 0 <= i < first_nl(s) ==> s[i] != '\n',
    decreases s.len(),
{
    if s.len() > 0 && s[0] != '\n' {
        lemma_first_nl(s.skip(1));
        assert forall|i: int| 0 <= i < first_nl(s) implies s[i] != '\n' by {
            if i > 0 {
                assert(s.skip(1)[i - 1] != '\n');
            }
        }
    }
}

/// `first_nl` is pinned by the scan that found it.
pub proof fn lemma_first_nl_is(s: Seq<char>, k: int)
    requires
        0 <= k <= s.len(),
        forall|i: int| 0 <= i < k ==> #[trigger] s[i] != '\n',
        k < s.len() ==> s[k] == '\n',
    ensures
        first_nl(s) == k,
    decreases k,
{
    if s.len() > 0 && s[0] != '\n' {
        assert(k > 0);
        lemma_first_nl_is(s.skip(1), k - 1);
    }
}

/// A line piece with a trailing carriage return removed.
pub open spec fn strip_cr(s: Seq<char>) -> Seq<char> {
    if s.len() > 0 && s.last() == '\r' {
        s.drop_last()
    } else {
        s
    }
}

/// The lines of `s`: split at `'\n'`, a trailing `'\r'` removed from each
/// piece, and no empty final piece after a terminating newline.
pub open spec fn lines_spec(s: Seq<char>) -> Seq<Seq<char>>
    decreases s.len(),
{
    if s.len() == 0 {
        Seq::empty()
    } else {
        let i = first_nl(s);
        let line = strip_cr(s.subrange(0, i));
        if 0 <= i < s.len() {
            seq![line] + lines_spec(s.skip(i + 1))
        } else {
            seq![line]
        }
    }
}

/// Splits `s` into its lines, borrowing each from `s`.
pub fn split_lines<'a>(s: &'a str) -> (r: Vec<&'a str>)
    ensures
        r.deep_view() == lines_spec(s@),
{
    let n = s.unicode_len();
    let mut r: Vec<&'a str> = Vec::new();
    let mut pos: usize = 0;
    proof {
        assert(s@.skip(0) =~= s@);
        assert(r.deep_view() =~= Seq::<Seq<char>>::empty());
        assert(r.deep_view() + lines_spec(s@) =~= lines_spec(s@));
    }
    while pos < n
        invariant
            0 <= pos <= n,
            n == s@.len(),
            lines_spec(s@) =~= r.deep_view() + lines_spec(s@.skip(pos as int)),
        decreases n - pos,
    {
        let ghost rest = s@.skip(pos as int);
        let mut j: usize = pos;
        while j < n && s.get_char(j) != '\n'
            invariant
                pos <= j <= n,
                n == s@.len(),
                forall|i: int| pos <= i < j ==> #[trigger] s@[i] != '\n',
            decreases n - j,
        {
            j = j + 1;
        }
        proof {
            assert forall|i: int| 0 <= i < j - pos implies #[trigger] rest[i] != '\n' by {
                assert(rest[i] == s@[pos + i]);
            }
            if (j as int) < n as int {
                assert(rest[j - pos] == s@[j as int]);
            }
            lemma_first_nl_is(rest, j - pos);
        }
        // the piece is [pos, j); drop a trailing '\r' if present
        let mut end: usize = j;
        if j > pos && s.get_char(j - 1) == '\r' {
            end = j - 1;
        }
        let piece = s.substring_char(pos, end);
        proof {
            let sub = rest.subrange(0, j - pos);
            assert(sub =~= s@.subrange(pos as int, j as int));
            if j > pos && s@[j as int - 1] == '\r' {
                assert(strip_cr(sub) =~= s@.subrange(pos as int, j as int - 1));
            } else {
                assert(strip_cr(sub) =~= s@.subrange(pos as int, j as int));
            }
            assert(piece@ == strip_cr(sub));
        }
        r.push(piece);
        proof {
            if (j as int) == n as int {
                assert(lines_spec(rest) =~= seq![strip_cr(rest.subrange(0, j - pos))]);
            } else {
                assert(lines_spec(rest) =~= seq![strip_cr(rest.subrange(0, j - pos))]
                    + lines_spec(rest.skip(j - pos + 1)));
                assert(rest.skip(j - pos + 1) =~= s@.skip(j + 1));
            }
        }
        pos = if j < n { j + 1 } else { n };
        proof {
            if pos as int == n as int && j as int == n as int {
                assert(s@.skip(n as int) =~= Seq::<char>::empty());
            }
        }
    }
    proof {
        assert(s@.skip(n as int) =~= Seq::<char>::empty());
        assert(r.deep_view() + lines_spec(Seq::<char>::empty()) =~= r.deep_view());
    }
    r
}

/// One decimal digit as a borrowed one-character string.
fn digit_str(d: u64) -> (r: &'static str)
    requires
        d < 10,
    ensures
        r@ =~= seq![digit_char(d as nat)],
{
    proof {
        reveal_strlit("0");
        reveal_strlit("1");
        reveal_strlit("2");
        reveal_strlit("3");
        reveal_strlit("4");
        reveal_strlit("5");
        reveal_strlit("6");
        reveal_strlit("7");
        reveal_strlit("8");
        reveal_strlit("9");
    }
    if d == 0 {
        "0"
    } else if d == 1 {
        "1"
    } else if d == 2 {
        "2"
    } else if d == 3 {
        "3"
    } else if d == 4 {
        "4"
    } else if d == 5 {
        "5"
    } else if d == 6 {
        "6"
    } else if d == 7 {
        "7"
    } else if d == 8 {
        "8"
    } else {
        "9"
    }
}

/// Renders `n` in decimal.
pub fn u64_to_string(n: u64) -> (r: String)
    ensures
        r@ == dec_str(n as nat),
    decreases n,
{
    let d = n % 10;
    let ds = digit_str(d);
    if n < 10 {
        assert(dec_str(n as nat) =~= seq![digit_char(n as nat)]);
        ds.to_owned()
    } else {
        let mut r = u64_to_string(n / 10);
        r.append(ds);
        proof {
            assert(dec_str(n as nat) =~= dec_str(n as nat / 10) + seq![digit_char(n as nat % 10)]);
        }
        r
    }
}

/// Reads the digit characters of `s@` in `[from, to)` as a `u32`; `None`
/// exactly when their value does not fit.
pub fn parse_u32_digits(s: &str, from: usize, to: usize) -> (r: Option<u32>)
    requires
        from <= to <= s@.len(),
        forall|i: int| from <= i < to ==> is_digit(#[trigger] s@[i]),
    ensures
        match r {
            Some(v) => v == digits_val(s@.subrange(from as int, to as int))
                && digits_val(s@.subrange(from as int, to as int)) <= u32::MAX,
            None => digits_val(s@.subrange(from as int, to as int)) > u32::MAX,
        },
{
    let ghost whole = s@.subrange(from as int, to as int);
    let mut acc: u32 = 0;
    let mut i: usize = from;
    while i < to
        invariant
            from <= i <= to <= s@.len(),
            whole == s@.subrange(from as int, to as int),
            forall|k: int| from <= k < to ==> is_digit(#[trigger] s@[k]),
            acc == digits_val(s@.subrange(from as int, i as int)),
        decreases to - i,
    {
        let c = s.get_char(i);
        assert(is_digit(c));
        let d: u32 = (c as u32) - 48;
        assert(d == digit_val(c) && d <= 9);
        let ghost pre = s@.subrange(from as int, i as int);
        let ghost cur = s@.subrange(from as int, i as int + 1);
        proof {
            assert(cur.drop_last() =~= pre);
            assert(cur.last() == s@[i as int]);
        }
        if acc > (u32::MAX - d) / 10 {
            proof {
                assert(acc * 10 + d > u32::MAX) by (nonlinear_arith)
                    requires acc > (u32::MAX - d) / 10, d <= 9, acc <= u32::MAX;
                assert(digits_val(cur) > u32::MAX);
                lemma_digits_val_prefix_mono(whole, i as int + 1 - from, to - from);
                assert(whole.subrange(0, i as int + 1 - from) =~= cur);
                assert(whole.subrange(0, to - from) =~= whole);
            }
            return None;
        }
        proof {
            assert(acc * 10 + d <= u32::MAX) by (nonlinear_arith)
                requires acc <= (u32::MAX - d) / 10, d <= 9;
        }
        acc = acc * 10 + d;
        i = i + 1;
    }
    proof {
        assert(s@.subrange(from as int, to as int) =~= whole);
    }
    Some(acc)
}

} // verus!
