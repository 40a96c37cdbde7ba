//! Decimal and hexadecimal numbers as text, and the small string tools that
//! file names, CPU lists and arguments are read with.

use vstd::arithmetic::power::*;
use vstd::prelude::*;
use vstd::string::*;

verus! {

/// The digit of value `d`, upper case above nine.
pub open spec fn digit_char(d: nat) -> char {
    if d < 10 {
        (48 + d) as char
    } else {
        (55 + d) as char
    }
}

/// `x` in the given base, with leading zeros up to `width` digits.
pub open spec fn numeral(x: nat, base: nat, width: nat) -> Seq<char>
    decreases x, width,
    when base >= 2
{
    if width == 0 && x == 0 {
        Seq::empty()
    } else {
        proof {
            if x > 0 {
                assert(x / base < x) by (nonlinear_arith)
                    requires
                        x > 0,
                        base >= 2,
                ;
            } else {
                assert(x / base == 0) by (nonlinear_arith)
                    requires
                        x == 0,
                        base >= 2,
                ;
            }
        }
        numeral(x / base, base, if width == 0 { 0 } else { (width - 1) as nat }).push(
            digit_char(x % base),
        )
    }
}

/// `x` in decimal, without leading zeros.
pub open spec fn decimal(x: nat) -> Seq<char> {
    numeral(x, 10, 1)
}

/// Whether `c` is one of the ten ASCII digits.
pub open spec fn is_digit(c: char) -> bool {
    '0' <= c <= '9'
}

/// The number that a string of digits stands for.
pub open spec fn digits_value(s: Seq<char>) -> nat
    decreases s.len(),
{
    if s.len() == 0 {
        0
    } else {
        digits_value(s.drop_last()) * 10 + (s.last() as nat - 48) as nat
    }
}

/// The digits of a number that may have a leading plus sign.
pub open spec fn unsigned_body(s: Seq<char>) -> Seq<char> {
    if s.len() > 0 && s[0] == '+' {
        s.skip(1)
    } else {
        s
    }
}

/// The number up to `max` that `s` spells in decimal, if it spells one.
pub open spec fn parsed_unsigned(s: Seq<char>, max: nat) -> Option<nat> {
    let body = unsigned_body(s);
    if body.len() > 0 && (forall|i: int| 0 <= i < body.len() ==> is_digit(#[trigger] body[i]))
        && digits_value(body) <= max {
        Some(digits_value(body))
    } else {
        None
    }
}

/// The characters of a string.
pub fn chars_of(s: &str) -> (v: Vec<char>)
    ensures
        v@ == s@,
{
    let mut v: Vec<char> = Vec::new();
    for c in it: s.chars()
        invariant
            it.seq() == s@,
            v@ == it.seq().take(it.index()),
    {
        v.push(c);
    }
    v
}

/// The position of the first `c` in `s`, or its length if there is none.
pub open spec fn first_of(s: Seq<char>, c: char) -> nat
    decreases s.len(),
{
    if s.len() == 0 || s[0] == c {
        0
    } else {
        1 + first_of(s.skip(1), c)
    }
}

pub proof fn lemma_first_of(s: Seq<char>, c: char)
    ensures
        first_of(s, c) <= s.len(),
        first_of(s, c) < s.len() ==> s[first_of(s, c) as int] == c,
        forall|i: int| 0 <= i < first_of(s, c) ==> s[i] != c,
    decreases s.len(),
{
    if s.len() > 0 && s[0] != c {
        lemma_first_of(s.skip(1), c);
        assert forall|i: int| 0 <= i < first_of(s, c) implies s[i] != c by {
            if i > 0 {
                assert(s.skip(1)[i - 1] == s[i]);
            }
        }
    }
}

pub proof fn lemma_first_of_unique(s: Seq<char>, c: char, n: nat)
    requires
        n <= s.len(),
        n < s.len() ==> s[n as int] == c,
        forall|i: int| 0 <= i < n ==> s[i] != c,
    ensures
        first_of(s, c) == n,
{
    lemma_first_of(s, c);
}

/// The characters of the Unicode White_Space property.
pub open spec fn is_space(c: char) -> bool {
    let u = c as int;
    ||| 0x9 <= u <= 0xD
    ||| u == 0x20
    ||| u == 0x85
    ||| u == 0xA0
    ||| u == 0x1680
    ||| 0x2000 <= u <= 0x200A
    ||| u == 0x2028
    ||| u == 0x2029
    ||| u == 0x202F
    ||| u == 0x205F
    ||| u == 0x3000
}

/// `s` without white space at its start.
pub open spec fn trimmed_start(s: Seq<char>) -> Seq<char>
    decreases s.len(),
{
    if s.len() > 0 && is_space(s[0]) {
        trimmed_start(s.skip(1))
    } else {
        s
    }
}

/// `s` without white space at its end.
pub open spec fn trimmed_end(s: Seq<char>) -> Seq<char>
    decreases s.len(),
{
    if s.len() > 0 && is_space(s.last()) {
        trimmed_end(s.drop_last())
    } else {
        s
    }
}

/// `s` without white space at either end.
pub open spec fn trimmed(s: Seq<char>) -> Seq<char> {
    trimmed_end(trimmed_start(s))
}

/// Whether `c` is white space.
pub fn space(c: char) -> (b: bool)
    ensures
        b == is_space(c),
{
    let u: u32 = c as u32;
    (0x9 <= u && u <= 0xD) || u == 0x20 || u == 0x85 || u == 0xA0 || u == 0x1680 || (0x2000 <= u
        && u <= 0x200A) || u == 0x2028 || u == 0x2029 || u == 0x202F || u == 0x205F || u == 0x3000
}

/// Cuts white space off both ends.
pub fn trim(s: &[char]) -> (t: &[char])
    ensures
        t@ == trimmed(s@),
{
    let n: usize = s.len();
    let mut a: usize = 0;
    assert(s@.skip(0) =~= s@);
    while a < n && space(s[a])
        invariant
            n == s.len(),
            a <= n,
            trimmed_start(s@.skip(a as int)) == trimmed_start(s@),
        decreases n - a,
    {
        assert(s@.skip(a as int).skip(1) =~= s@.skip(a + 1));
        a = a + 1;
    }
    assert(trimmed_start(s@) == s@.skip(a as int));
    let mut b: usize = n;
    assert(s@.skip(a as int) =~= s@.subrange(a as int, n as int));
    while a < b && space(s[b - 1])
        invariant
            n == s.len(),
            a <= b <= n,
            trimmed_end(s@.subrange(a as int, b as int)) == trimmed(s@),
        decreases b,
    {
        assert(s@.subrange(a as int, b as int).drop_last() =~= s@.subrange(a as int, b - 1));
        b = b - 1;
    }
    vstd::slice::slice_subrange(s, a, b)
}

/// Finds the first `c`.
pub fn find(s: &[char], c: char) -> (at: usize)
    ensures
        at == first_of(s@, c),
        at <= s@.len(),
{
    let n: usize = s.len();
    let mut i: usize = 0;
    while i < n && s[i] != c
        invariant
            n == s.len(),
            i <= n,
            forall|j: int| 0 <= j < i ==> s@[j] != c,
        decreases n - i,
    {
        i = i + 1;
    }
    proof {
        lemma_first_of_unique(s@, c, i as nat);
    }
    i
}

pub proof fn lemma_digits_value_monotone(s: Seq<char>, n: int)
    requires
        0 <= n <= s.len(),
    ensures
        digits_value(s.take(n)) <= digits_value(s),
    decreases s.len(),
{
    if n == s.len() {
        assert(s.take(n) =~= s);
    } else {
        lemma_digits_value_monotone(s.drop_last(), n);
        assert(s.drop_last().take(n) =~= s.take(n));
    }
}

/// Reads an unsigned decimal number of at most `max`.
pub fn parse_unsigned(s: &[char], max: u64) -> (r: Option<u64>)
    ensures
        r matches Some(x) ==> parsed_unsigned(s@, max as nat) == Some(x as nat),
        r is None ==> parsed_unsigned(s@, max as nat) is None,
{
    let from: usize = if s.len() > 0 && s[0] == '+' {
        1
    } else {
        0
    };
    let body: &[char] = vstd::slice::slice_subrange(s, from, s.len());
    assert(body@ =~= unsigned_body(s@));
    let n: usize = body.len();
    if n == 0 {
        return None;
    }
    let mut x: u64 = 0;
    let mut i: usize = 0;
    while i < n
        invariant
            n == body.len(),
            i <= n,
            n > 0,
            body@ == unsigned_body(s@),
            x == digits_value(body@.take(i as int)),
            x <= max,
            forall|j: int| 0 <= j < i ==> is_digit(#[trigger] body@[j]),
        decreases n - i,
    {
        let c: char = body[i];
        if !('0' <= c && c <= '9') {
            return None;
        }
        let d: u64 = (c as u32 - 48) as u64;
        proof {
            assert(body@.take(i + 1).drop_last() =~= body@.take(i as int));
            lemma_digits_value_monotone(body@, i + 1);
        }
        if d > max || x > max / 10 || x * 10 > max - d {
            return None;
        }
        x = x * 10 + d;
        i = i + 1;
    }
    assert(body@.take(n as int) =~= body@);
    Some(x)
}

/// The text of one digit.
fn digit_text(d: u64) -> (s: &'static str)
    requires
        d < 16,
    ensures
        s@ == seq![digit_char(d as nat)],
{
    proof {
        reveal_strlit("0");
        reveal_strlit("1");
        reveal_strlit("2");
        reveal_strlit("3");
        reveal_strlit("4");
        reveal_strlit("5");
        reveal_strlit("6");
        reveal_strlit("7");
        reveal_strlit("8");
        reveal_strlit("9");
        reveal_strlit("A");
        reveal_strlit("B");
        reveal_strlit("C");
        reveal_strlit("D");
        reveal_strlit("E");
        reveal_strlit("F");
    }
    let s: &'static str = match d {
        0 => "0",
        1 => "1",
        2 => "2",
        3 => "3",
        4 => "4",
        5 => "5",
        6 => "6",
        7 => "7",
        8 => "8",
        9 => "9",
        10 => "A",
        11 => "B",
        12 => "C",
        13 => "D",
        14 => "E",
        _ => "F",
    };
    assert(s@ =~= seq![digit_char(d as nat)]);
    s
}

/// Appends `x` in the given base, with leading zeros up to `width` digits.
pub fn push_numeral(out: &mut String, x: u64, base: u64, width: usize)
    requires
        2 <= base <= 16,
    ensures
        final(out)@ == old(out)@ + numeral(x as nat, base as nat, width as nat),
    decreases x, width,
{
    if width == 0 && x == 0 {
        assert(out@ =~= old(out)@ + numeral(x as nat, base as nat, width as nat));
        return ;
    }
    proof {
        assert(x / base <= x) by (nonlinear_arith)
            requires
                base >= 2,
        ;
        assert(x > 0 ==> x / base < x) by (nonlinear_arith)
            requires
                base >= 2,
        ;
    }
    let rest: usize = if width == 0 {
        0
    } else {
        width - 1
    };
    push_numeral(out, x / base, base, rest);
    out.append(digit_text(x % base));
    assert(out@ =~= old(out)@ + numeral(x as nat, base as nat, width as nat));
}

/// Every digit of a decimal numeral is one, and together they spell the number.
pub proof fn lemma_numeral_digits(x: nat, width: nat)
    ensures
        forall|i: int|
            0 <= i < numeral(x, 10, width).len() ==> is_digit(#[trigger] numeral(x, 10, width)[i]),
        digits_value(numeral(x, 10, width)) == x,
        width <= numeral(x, 10, width).len(),
    decreases x, width,
{
    if width > 0 || x > 0 {
        let rest = if width == 0 {
            0
        } else {
            (width - 1) as nat
        };
        lemma_numeral_digits(x / 10, rest);
        let n = numeral(x, 10, width);
        assert(n.drop_last() =~= numeral(x / 10, 10, rest));
        assert forall|i: int| 0 <= i < n.len() implies is_digit(#[trigger] n[i]) by {
            if i < n.len() - 1 {
                assert(numeral(x / 10, 10, rest)[i] == n[i]);
            }
        }
    }
}

/// Reading a written decimal number gives it back, leading zeros or not.
pub proof fn lemma_parse_numeral(x: nat, width: nat, max: nat)
    requires
        0 < width,
        x <= max,
    ensures
        parsed_unsigned(numeral(x, 10, width), max) == Some(x),
{
    lemma_numeral_digits(x, width);
    let n = numeral(x, 10, width);
    assert(is_digit(n[0]));
    assert(unsigned_body(n) == n);
}

/// The ten digits stand for zero to nine, and the letters behind them for ten to
/// fifteen.
pub proof fn law_digits(d: nat)
    ensures
        d < 10 ==> digit_char(d) as nat == '0' as nat + d,
        10 <= d < 16 ==> digit_char(d) as nat == 'A' as nat + d - 10,
{
}

/// A numeral ends with the digit of what is left over, and begins with the numeral of
/// what was divided off.
pub proof fn law_numeral_ends_with_its_last_digit(x: nat, base: nat, width: nat)
    requires
        base >= 2,
        width > 0,
    ensures
        numeral(x, base, width).len() >= 1,
        numeral(x, base, width).last() == digit_char(x % base),
        numeral(x, base, width).drop_last() == numeral(x / base, base, (width - 1) as nat),
        numeral(0, base, 0).len() == 0,
{
    assert(numeral(x, base, width).drop_last() =~= numeral(x / base, base, (width - 1) as nat));
}

/// A decimal numeral is at least as long as its width, and spells its number. If it is
/// longer, it has no leading zero.
pub proof fn law_numeral_spells_its_number(x: nat, width: nat)
    ensures
        digits_value(numeral(x, 10, width)) == x,
        numeral(x, 10, width).len() >= width,
        numeral(x, 10, width).len() > width ==> numeral(x, 10, width)[0] != '0',
    decreases x, width,
{
    lemma_numeral_digits(x, width);
    if width > 0 || x > 0 {
        let rest = if width == 0 {
            0
        } else {
            (width - 1) as nat
        };
        law_numeral_spells_its_number(x / 10, rest);
        let n = numeral(x, 10, width);
        assert(n.drop_last() =~= numeral(x / 10, 10, rest));
        if n.len() > 1 {
            assert(n[0] == numeral(x / 10, 10, rest)[0]);
        }
    }
}

/// A number is read from its digits, with or without a plus sign before them. Anything
/// else is no number: no digits at all, another character among them, or a number
/// above the largest one allowed.
pub proof fn law_only_digits_are_a_number(s: Seq<char>, max: nat, i: int)
    ensures
        s.len() == 0 ==> parsed_unsigned(s, max) is None,
        s == seq!['+'] ==> parsed_unsigned(s, max) is None,
        0 <= i < s.len() && !('0' <= s[i] <= '9') && (i > 0 || s[0] != '+') ==> parsed_unsigned(
            s,
            max,
        ) is None,
        s.len() > 0 && (forall|j: int| 0 <= j < s.len() ==> '0' <= #[trigger] s[j] <= '9') ==> {
            &&& digits_value(s) <= max ==> parsed_unsigned(s, max) == Some(digits_value(s))
                && parsed_unsigned(seq!['+'] + s, max) == Some(digits_value(s))
            &&& digits_value(s) > max ==> parsed_unsigned(s, max) is None && parsed_unsigned(
                seq!['+'] + s,
                max,
            ) is None
        },
{
    if 0 <= i < s.len() && !('0' <= s[i] <= '9') && (i > 0 || s[0] != '+') {
        let body = unsigned_body(s);
        if s[0] == '+' {
            assert(body[i - 1] == s[i]);
        }
        assert(parsed_unsigned(s, max) is None);
    }
    if s.len() > 0 && (forall|j: int| 0 <= j < s.len() ==> '0' <= #[trigger] s[j] <= '9') {
        assert('0' <= s[0] <= '9');
        assert((seq!['+'] + s).skip(1) =~= s);
        assert forall|j: int| 0 <= j < s.len() implies is_digit(#[trigger] s[j]) by {}
    }
}

/// The digits of a number count ten times as much with every digit behind them.
pub proof fn law_digits_count_by_place(s: Seq<char>, d: char)
    requires
        '0' <= d <= '9',
    ensures
        digits_value(s.push(d)) == 10 * digits_value(s) + (d as int - '0' as int),
        digits_value(Seq::<char>::empty()) == 0,
{
    assert(s.push(d).drop_last() =~= s);
}

proof fn lemma_trimmed_start(s: Seq<char>) -> (a: int)
    ensures
        0 <= a <= s.len(),
        trimmed_start(s) == s.skip(a),
        forall|i: int| 0 <= i < a ==> is_space(#[trigger] s[i]),
        a < s.len() ==> !is_space(s[a]),
    decreases s.len(),
{
    if s.len() > 0 && is_space(s[0]) {
        let t = s.skip(1);
        let a = lemma_trimmed_start(t);
        assert(t.skip(a) =~= s.skip(a + 1));
        assert forall|i: int| 0 <= i < a + 1 implies is_space(#[trigger] s[i]) by {
            if i > 0 {
                assert(t[i - 1] == s[i]);
            }
        }
        a + 1
    } else {
        assert(s.skip(0) =~= s);
        0
    }
}

proof fn lemma_trimmed_end(s: Seq<char>) -> (b: int)
    ensures
        0 <= b <= s.len(),
        trimmed_end(s) == s.take(b),
        forall|i: int| b <= i < s.len() ==> is_space(#[trigger] s[i]),
        b > 0 ==> !is_space(s[b - 1]),
    decreases s.len(),
{
    if s.len() > 0 && is_space(s.last()) {
        let t = s.drop_last();
        let b = lemma_trimmed_end(t);
        assert(t.take(b) =~= s.take(b));
        assert forall|i: int| b <= i < s.len() implies is_space(#[trigger] s[i]) by {
            if i < t.len() {
                assert(t[i] == s[i]);
            }
        }
        b
    } else {
        assert(s.take(s.len() as int) =~= s);
        s.len() as int
    }
}

/// Cutting white space off both ends leaves the part of a text between its first and
/// its last character that is none, and loses nothing else. A text that neither starts
/// nor ends with white space stays as it is.
pub proof fn law_trimming_cuts_white_space_only(s: Seq<char>) -> (ends: (int, int))
    ensures
        0 <= ends.0 <= ends.1 <= s.len(),
        trimmed(s) == s.subrange(ends.0, ends.1),
        forall|i: int| 0 <= i < ends.0 || ends.1 <= i < s.len() ==> is_space(#[trigger] s[i]),
        ends.0 < ends.1 ==> !is_space(s[ends.0]) && !is_space(s[ends.1 - 1]),
        s.len() > 0 && !is_space(s[0]) && !is_space(s.last()) ==> trimmed(s) == s,
{
    let a = lemma_trimmed_start(s);
    let t = s.skip(a);
    let b = lemma_trimmed_end(t);
    assert(t.take(b) =~= s.subrange(a, a + b));
    assert forall|i: int| 0 <= i < a || a + b <= i < s.len() implies is_space(#[trigger] s[i]) by {
        if i >= a {
            assert(t[i - a] == s[i]);
        }
    }
    if b > 0 {
        assert(t[b - 1] == s[a + b - 1]);
    }
    if s.len() > 0 && !is_space(s[0]) && !is_space(s.last()) {
        assert(a == 0);
        assert(b == s.len()) by {
            if b < s.len() {
                assert(is_space(t[s.len() - 1]));
            }
        }
        assert(s.subrange(0, s.len() as int) =~= s);
    }
    (a, a + b)
}

/// The blank, the tab and the ends of lines are white space; digits, letters, commas
/// and dashes are not.
pub proof fn law_white_space(c: char)
    ensures
        is_space(' ') && is_space('\t') && is_space('\n') && is_space('\r'),
        '0' <= c <= '9' || 'a' <= c <= 'z' || 'A' <= c <= 'Z' || c == ',' || c == '-' || c == '_'
            || c == '.' || c == '+' ==> !is_space(c),
{
}

/// The first place of a character is where it stands with none before; a text that
/// does not hold it has its own length for that.
pub proof fn law_first_place(s: Seq<char>, c: char, i: int)
    ensures
        first_of(s, c) <= s.len(),
        first_of(s, c) < s.len() ==> s[first_of(s, c) as int] == c,
        0 <= i < s.len() && s[i] == c ==> first_of(s, c) <= i,
{
    lemma_first_of(s, c);
}

/// A numeral has at least the digits of its width. It has no more if the number is below
/// the base raised to the width.
pub proof fn law_numeral_is_as_wide_as_asked(x: nat, base: nat, width: nat)
    requires
        base >= 2,
    ensures
        numeral(x, base, width).len() >= width,
        x < pow(base as int, width) ==> numeral(x, base, width).len() == width,
    decreases x, width,
{
    reveal(pow);
    if width > 0 || x > 0 {
        if x > 0 {
            assert(x / base < x) by (nonlinear_arith)
                requires
                    x > 0,
                    base >= 2,
            ;
        } else {
            assert(x / base == 0) by (nonlinear_arith)
                requires
                    x == 0,
                    base >= 2,
            ;
        }
        if width > 0 {
            let w = (width - 1) as nat;
            law_numeral_is_as_wide_as_asked(x / base, base, w);
            if x < pow(base as int, width) {
                let p = pow(base as int, w);
                assert(x / base < p) by (nonlinear_arith)
                    requires
                        x < base * p,
                        base >= 2,
                        x >= 0,
                ;
            }
        }
    }
}

/// A decimal numeral consists of digits, spells its number, and has no leading zero unless
/// it is zero itself. So its number is read back from it.
pub proof fn law_decimal_spells_its_number(x: nat, i: int)
    ensures
        decimal(x).len() > 0,
        digits_value(decimal(x)) == x,
        0 <= i < decimal(x).len() ==> '0' <= decimal(x)[i] <= '9',
        decimal(x).len() > 1 ==> decimal(x)[0] != '0',
{
    law_numeral_spells_its_number(x, 1);
    lemma_numeral_digits(x, 1);
}

} // verus!
