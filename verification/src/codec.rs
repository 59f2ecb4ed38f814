//! The text layer of the persistence format: escaped quoted strings, decimal
//! integers, and newline-separated lines, with the lemmas that make the
//! format round-trip.

use vstd::prelude::*;

verus! {

// ---------------------------------------------------------------------------
// Escaped characters
// ---------------------------------------------------------------------------

/// How a single character is written inside a quoted string.
pub open spec fn esc_char(c: char) -> Seq<char> {
    if c == '\\' {
        seq!['\\', '\\']
    } else if c == '"' {
        seq!['\\', '"']
    } else if c == '\n' {
        seq!['\\', 'n']
    } else if c == '\r' {
        seq!['\\', 'r']
    } else if c == '\t' {
        seq!['\\', 't']
    } else {
        seq![c]
    }
}

/// The character denoted by the escape code `c` (the character after a
/// backslash), if any.
pub open spec fn unesc_char(c: char) -> Option<char> {
    if c == '\\' {
        Some('\\')
    } else if c == '"' {
        Some('"')
    } else if c == 'n' {
        Some('\n')
    } else if c == 'r' {
        Some('\r')
    } else if c == 't' {
        Some('\t')
    } else {
        None
    }
}

/// The escaped form of a whole string (without the surrounding quotes).
pub open spec fn esc(s: Seq<char>) -> Seq<char>
    decreases s.len(),
{
    if s.len() == 0 {
        Seq::empty()
    } else {
        esc_char(s[0]) + esc(s.drop_first())
    }
}

/// Scanning a quoted-string body: consumes characters up to and including an
/// unescaped closing quote, returning the denoted string and the number of
/// characters consumed.
pub open spec fn scan_quoted(s: Seq<char>) -> Option<(Seq<char>, nat)>
    decreases s.len(),
{
    if s.len() == 0 {
        None
    } else if s[0] == '"' {
        Some((Seq::empty(), 1nat))
    } else if s[0] == '\\' {
        if s.len() >= 2 {
            match unesc_char(s[1]) {
                Some(c) => match scan_quoted(s.drop_first().drop_first()) {
                    Some(r) => Some((seq![c] + r.0, (r.1 + 2) as nat)),
                    None => None,
                },
                None => None,
            }
        } else {
            None
        }
    } else {
        match scan_quoted(s.drop_first()) {
            Some(r) => Some((seq![s[0]] + r.0, (r.1 + 1) as nat)),
            None => None,
        }
    }
}

pub proof fn lemma_scan_quoted_bounds(s: Seq<char>)
    requires
        scan_quoted(s) is Some,
    ensures
        1 <= scan_quoted(s)->Some_0.1 <= s.len(),
    decreases s.len(),
{
    if s[0] == '"' {
    } else if s[0] == '\\' {
        lemma_scan_quoted_bounds(s.drop_first().drop_first());
    } else {
        lemma_scan_quoted_bounds(s.drop_first());
    }
}

/// The escaped form of a string never contains a newline, so a quoted value
/// always fits on one line.
pub proof fn lemma_esc_no_newline(s: Seq<char>)
    ensures
        forall|i: int| 0 <= i < esc(s).len() ==> esc(s)[i] != '\n',
    decreases s.len(),
{
    if s.len() > 0 {
        lemma_esc_no_newline(s.drop_first());
        let c = s[0];
        assert forall|i: int| 0 <= i < esc(s).len() implies esc(s)[i] != '\n' by {
            assert(esc(s) == esc_char(c) + esc(s.drop_first()));
            if i < esc_char(c).len() {
                assert(esc(s)[i] == esc_char(c)[i]);
            } else {
                assert(esc(s)[i] == esc(s.drop_first())[i - esc_char(c).len()]);
            }
        }
    }
}

/// Scanning the escaped form of `s` followed by a closing quote yields `s`
/// back and consumes exactly the escaped text and the quote.
pub proof fn lemma_scan_esc(s: Seq<char>, rest: Seq<char>)
    ensures
        scan_quoted(esc(s) + seq!['"'] + rest) == Some((s, (esc(s).len() + 1) as nat)),
    decreases s.len(),
{
    let t = esc(s) + seq!['"'] + rest;
    if s.len() == 0 {
        assert(t =~= seq!['"'] + rest);
        assert(t[0] == '"');
        assert(scan_quoted(t) == Some((Seq::<char>::empty(), 1nat)));
    } else {
        let c = s[0];
        let tail = s.drop_first();
        lemma_scan_esc(tail, rest);
        let inner = esc(tail) + seq!['"'] + rest;
        if c == '\\' || c == '"' || c == '\n' || c == '\r' || c == '\t' {
            assert(esc_char(c).len() == 2);
            assert(t =~= esc_char(c) + inner);
            assert(t[0] == '\\');
            assert(unesc_char(t[1]) == Some(c));
            assert(t.drop_first().drop_first() =~= inner);
            assert(scan_quoted(t) == Some((seq![c] + tail, (esc(tail).len() + 1 + 2) as nat)));
            assert(seq![c] + tail =~= s);
            assert(esc(s).len() == esc(tail).len() + 2);
        } else {
            assert(esc_char(c) =~= seq![c]);
            assert(t =~= seq![c] + inner);
            assert(t[0] == c);
            assert(t.drop_first() =~= inner);
            assert(scan_quoted(t) == Some((seq![c] + tail, (esc(tail).len() + 1 + 1) as nat)));
            assert(seq![c] + tail =~= s);
            assert(esc(s).len() == esc(tail).len() + 1);
        }
    }
}

// ---------------------------------------------------------------------------
// Lines
// ---------------------------------------------------------------------------

/// Splits a text into its lines at `'\n'`; a final unterminated line counts
/// as a line, and a trailing newline does not create an empty line.
pub open spec fn split_lines(t: Seq<char>) -> Seq<Seq<char>>
    decreases t.len(),
{
    if t.len() == 0 {
        Seq::empty()
    } else {
        let rest = split_lines(t.drop_first());
        if t[0] == '\n' {
            seq![Seq::<char>::empty()] + rest
        } else if rest.len() == 0 {
            seq![seq![t[0]]]
        } else {
            seq![seq![t[0]] + rest[0]] + rest.drop_first()
        }
    }
}

/// Joins lines back into a text, terminating every line with `'\n'`.
pub open spec fn join_lines(lines: Seq<Seq<char>>) -> Seq<char>
    decreases lines.len(),
{
    if lines.len() == 0 {
        Seq::empty()
    } else {
        lines[0] + seq!['\n'] + join_lines(lines.drop_first())
    }
}

pub open spec fn line_clean(l: Seq<char>) -> bool {
    forall|i: int| 0 <= i < l.len() ==> l[i] != '\n'
}

pub open spec fn lines_clean(lines: Seq<Seq<char>>) -> bool {
    forall|i: int| 0 <= i < lines.len() ==> #[trigger] line_clean(lines[i])
}

proof fn lemma_split_one_line(l: Seq<char>, rest: Seq<char>)
    requires
        line_clean(l),
    ensures
        split_lines(l + seq!['\n'] + rest) == seq![l] + split_lines(rest),
    decreases l.len(),
{
    let t = l + seq!['\n'] + rest;
    if l.len() == 0 {
        assert(t =~= seq!['\n'] + rest);
        assert(t[0] == '\n');
        assert(t.drop_first() =~= rest);
        assert(l =~= Seq::<char>::empty());
        assert(split_lines(t) =~= seq![l] + split_lines(rest));
    } else {
        let c = l[0];
        let tail = l.drop_first();
        assert(line_clean(tail));
        lemma_split_one_line(tail, rest);
        let inner = tail + seq!['\n'] + rest;
        assert(t =~= seq![c] + inner);
        assert(t[0] == c);
        assert(c != '\n');
        assert(t.drop_first() =~= inner);
        let r = split_lines(inner);
        assert(r == seq![tail] + split_lines(rest));
        assert(r.len() > 0);
        assert(r[0] == tail);
        assert(split_lines(t) == seq![seq![c] + tail] + r.drop_first());
        assert(seq![c] + tail =~= l);
        assert(r.drop_first() =~= split_lines(rest));
        assert(split_lines(t) =~= seq![l] + split_lines(rest));
    }
}

/// Splitting undoes joining, provided no line contains a newline itself.
pub proof fn lemma_split_join(lines: Seq<Seq<char>>)
    requires
        lines_clean(lines),
    ensures
        split_lines(join_lines(lines)) == lines,
    decreases lines.len(),
{
    if lines.len() > 0 {
        assert(lines_clean(lines.drop_first()));
        lemma_split_join(lines.drop_first());
        assert(line_clean(lines[0]));
        lemma_split_one_line(lines[0], join_lines(lines.drop_first()));
        assert(split_lines(join_lines(lines)) =~= lines);
    }
}

/// Joining distributes over concatenation of line sequences.
pub proof fn lemma_join_concat(a: Seq<Seq<char>>, b: Seq<Seq<char>>)
    ensures
        join_lines(a + b) == join_lines(a) + join_lines(b),
    decreases a.len(),
{
    if a.len() == 0 {
        assert(a + b =~= b);
        assert(join_lines(a) =~= Seq::<char>::empty());
        assert(join_lines(a) + join_lines(b) =~= join_lines(b));
    } else {
        lemma_join_concat(a.drop_first(), b);
        assert((a + b).len() > 0);
        assert((a + b)[0] == a[0]);
        assert((a + b).drop_first() =~= a.drop_first() + b);
        assert(join_lines(a + b) =~= join_lines(a) + join_lines(b));
    }
}

// ---------------------------------------------------------------------------
// Decimal integers
// ---------------------------------------------------------------------------

pub open spec fn digit_char(d: int) -> char {
    if d == 0 {
        '0'
    } else if d == 1 {
        '1'
    } else if d == 2 {
        '2'
    } else if d == 3 {
        '3'
    } else if d == 4 {
        '4'
    } else if d == 5 {
        '5'
    } else if d == 6 {
        '6'
    } else if d == 7 {
        '7'
    } else if d == 8 {
        '8'
    } else {
        '9'
    }
}

pub open spec fn is_digit(c: char) -> bool {
    48 <= c as u32 <= 57
}

pub open spec fn digit_val(c: char) -> int {
    c as u32 - 48
}

/// The decimal digits of `n`, most significant first, with no leading zeros
/// (a single `'0'` for zero).
pub open spec fn dec_digits(n: nat) -> Seq<char>
    decreases n,
{
    if n < 10 {
        seq![digit_char(n as int)]
    } else {
        dec_digits(n / 10) + seq![digit_char((n % 10) as int)]
    }
}

/// The written form of a signed integer.
pub open spec fn int_chars(v: int) -> Seq<char> {
    if v < 0 {
        seq!['-'] + dec_digits((-v) as nat)
    } else {
        dec_digits(v as nat)
    }
}

pub open spec fn all_digits(s: Seq<char>) -> bool {
    forall|i: int| 0 <= i < s.len() ==> is_digit(s[i])
}

/// The value of a digit string read left to right, starting from `acc`.
pub open spec fn digits_val(s: Seq<char>, acc: nat) -> nat
    decreases s.len(),
{
    if s.len() == 0 {
        acc
    } else {
        digits_val(s.drop_first(), (acc * 10 + digit_val(s[0])) as nat)
    }
}

/// The integer denoted by a (possibly signed) decimal string, if it is one.
pub open spec fn parse_int(s: Seq<char>) -> Option<int> {
    if s.len() >= 2 && s[0] == '-' && all_digits(s.drop_first()) {
        Some(-(digits_val(s.drop_first(), 0) as int))
    } else if s.len() >= 1 && all_digits(s) {
        Some(digits_val(s, 0) as int)
    } else {
        None
    }
}

pub open spec fn pow10(k: nat) -> nat
    decreases k,
{
    if k == 0 {
        1
    } else {
        10 * pow10((k - 1) as nat)
    }
}

proof fn lemma_digits_val_concat(a: Seq<char>, b: Seq<char>, acc: nat)
    ensures
        digits_val(a + b, acc) == digits_val(b, digits_val(a, acc)),
    decreases a.len(),
{
    if a.len() == 0 {
        assert(a + b =~= b);
    } else {
        let acc2 = (acc * 10 + digit_val(a[0])) as nat;
        assert((a + b).drop_first() =~= a.drop_first() + b);
        lemma_digits_val_concat(a.drop_first(), b, acc2);
    }
}

pub proof fn lemma_dec_digits_shape(n: nat)
    ensures
        all_digits(dec_digits(n)),
        dec_digits(n).len() >= 1,
        is_digit(dec_digits(n)[0]),
    decreases n,
{
    if n < 10 {
        assert(is_digit(digit_char(n as int)));
    } else {
        lemma_dec_digits_shape(n / 10);
        assert(is_digit(digit_char((n % 10) as int)));
        assert forall|i: int| 0 <= i < dec_digits(n).len() implies is_digit(dec_digits(n)[i]) by {
            if i < dec_digits(n / 10).len() {
                assert(dec_digits(n)[i] == dec_digits(n / 10)[i]);
            } else {
                assert(dec_digits(n)[i] == digit_char((n % 10) as int));
            }
        }
    }
}

proof fn lemma_digits_val_dec(n: nat, acc: nat)
    ensures
        digits_val(dec_digits(n), acc) == acc * pow10(dec_digits(n).len()) + n,
    decreases n,
{
    if n < 10 {
        let d = digit_char(n as int);
        assert(digit_val(d) == n);
        assert(dec_digits(n) =~= seq![d]);
        assert(dec_digits(n).drop_first() =~= Seq::<char>::empty());
        assert(digits_val(Seq::<char>::empty(), (acc * 10 + digit_val(d)) as nat) == (acc * 10
            + digit_val(d)) as nat);
        assert(digits_val(dec_digits(n), acc) == acc * 10 + n);
        assert(pow10(0) == 1);
        assert(pow10(1) == 10);
    } else {
        let hi = dec_digits(n / 10);
        let lo = seq![digit_char((n % 10) as int)];
        lemma_digits_val_dec(n / 10, acc);
        lemma_digits_val_concat(hi, lo, acc);
        let m = digits_val(hi, acc);
        assert(m == acc * pow10(hi.len()) + n / 10);
        assert(lo.drop_first() =~= Seq::<char>::empty());
        assert(digits_val(Seq::<char>::empty(), (m * 10 + digit_val(lo[0])) as nat) == (m * 10
            + digit_val(lo[0])) as nat);
        assert(digits_val(lo, m) == m * 10 + digit_val(lo[0]));
        assert(digit_val(lo[0]) == n % 10);
        assert((n / 10) * 10 + n % 10 == n) by {
            vstd::arithmetic::div_mod::lemma_fundamental_div_mod(n as int, 10);
        }
        assert(dec_digits(n).len() == hi.len() + 1);
        assert(pow10(hi.len() + 1) == 10 * pow10(hi.len()));
        assert((acc * pow10(hi.len()) + n / 10) * 10 == acc * (pow10(hi.len()) * 10) + (n / 10)
            * 10) by (nonlinear_arith);
        assert(acc * (pow10(hi.len()) * 10) == acc * pow10(hi.len() + 1)) by {
            assert(pow10(hi.len()) * 10 == pow10(hi.len() + 1)) by (nonlinear_arith)
                requires pow10(hi.len() + 1) == 10 * pow10(hi.len());
        }
    }
}

/// Reading back the written form of an integer yields the integer.
pub proof fn lemma_parse_int_chars(v: int)
    ensures
        parse_int(int_chars(v)) == Some(v),
{
    if v < 0 {
        let d = dec_digits((-v) as nat);
        lemma_dec_digits_shape((-v) as nat);
        lemma_digits_val_dec((-v) as nat, 0);
        let s = seq!['-'] + d;
        assert(s[0] == '-');
        assert(s.drop_first() =~= d);
        assert(s.len() >= 2);
        assert(parse_int(s) == Some(-(digits_val(d, 0) as int)));
        assert(digits_val(d, 0) == 0 * pow10(d.len()) + (-v) as nat);
    } else {
        let d = dec_digits(v as nat);
        lemma_dec_digits_shape(v as nat);
        lemma_digits_val_dec(v as nat, 0);
        assert(d[0] != '-');
        assert(parse_int(d) == Some(digits_val(d, 0) as int));
        assert(digits_val(d, 0) == 0 * pow10(d.len()) + v as nat);
    }
}

// ---------------------------------------------------------------------------
// Executable helpers
// ---------------------------------------------------------------------------

/// Relies on `String::push`: appends one character to the string.
#[verifier::external_body]
fn push_char(s: &mut String, c: char)
    ensures
        final(s)@ == old(s)@.push(c),
{
    s.push(c);
}

/// Builds a `String` holding exactly the given characters.
pub fn chars_to_string(v: &Vec<char>) -> (s: String)
    ensures
        s@ == v@,
{
    let mut s = String::new();
    let mut i: usize = 0;
    while i < v.len()
        invariant
            i <= v.len(),
            s@ == v@.take(i as int),
        decreases v.len() - i,
    {
        push_char(&mut s, v[i]);
        proof {
            assert(v@.take(i as int).push(v@[i as int]) =~= v@.take(i + 1));
        }
        i += 1;
    }
    proof {
        assert(v@.take(v@.len() as int) =~= v@);
    }
    s
}

/// The characters of a string slice, as a vector.
pub fn str_chars(s: &str) -> (v: Vec<char>)
    ensures
        v@ == s@,
{
    let n = s.unicode_len();
    let mut v: Vec<char> = Vec::new();
    let mut i: usize = 0;
    while i < n
        invariant
            i <= n,
            n == s@.len(),
            v@ == s@.take(i as int),
        decreases n - i,
    {
        v.push(s.get_char(i));
        proof {
            assert(s@.take(i as int).push(s@[i as int]) =~= s@.take(i + 1));
        }
        i += 1;
    }
    proof {
        assert(s@.take(s@.len() as int) =~= s@);
    }
    v
}

/// Appends the characters of `s` to `out`.
pub fn append_str(out: &mut Vec<char>, s: &str)
    ensures
        final(out)@ == old(out)@ + s@,
{
    let n = s.unicode_len();
    let mut i: usize = 0;
    while i < n
        invariant
            i <= n,
            n == s@.len(),
            out@ == old(out)@ + s@.take(i as int),
        decreases n - i,
    {
        out.push(s.get_char(i));
        proof {
            assert((old(out)@ + s@.take(i as int)).push(s@[i as int]) =~= old(out)@ + s@.take(
                i + 1,
            ));
        }
        i += 1;
    }
    proof {
        assert(s@.take(s@.len() as int) =~= s@);
    }
}

/// Character-wise string equality (equality of the views).
pub fn str_eq_str(a: &str, b: &str) -> (r: bool)
    ensures
        r == (a@ == b@),
{
    let na = a.unicode_len();
    let nb = b.unicode_len();
    if na != nb {
        proof {
            assert(a@.len() != b@.len());
        }
        return false;
    }
    let mut i: usize = 0;
    while i < na
        invariant
            i <= na,
            na == a@.len(),
            na == b@.len(),
            forall|j: int| 0 <= j < i ==> a@[j] == b@[j],
        decreases na - i,
    {
        if a.get_char(i) != b.get_char(i) {
            return false;
        }
        i += 1;
    }
    proof {
        assert(a@ =~= b@);
    }
    true
}

/// Appends the escaped form of `s` to `out`.
pub fn push_esc(out: &mut Vec<char>, s: &str)
    ensures
        final(out)@ == old(out)@ + esc(s@),
{
    let n = s.unicode_len();
    let mut i: usize = 0;
    while i < n
        invariant
            i <= n,
            n == s@.len(),
            out@ == old(out)@ + esc(s@.take(i as int)),
        decreases n - i,
    {
        let c = s.get_char(i);
        if c == '\\' {
            out.push('\\');
            out.push('\\');
        } else if c == '"' {
            out.push('\\');
            out.push('"');
        } else if c == '\n' {
            out.push('\\');
            out.push('n');
        } else if c == '\r' {
            out.push('\\');
            out.push('r');
        } else if c == '\t' {
            out.push('\\');
            out.push('t');
        } else {
            out.push(c);
        }
        proof {
            lemma_esc_concat(s@.take(i as int), seq![s@[i as int]]);
            assert(s@.take(i as int) + seq![s@[i as int]] =~= s@.take(i + 1));
            assert(seq![s@[i as int]].drop_first() =~= Seq::<char>::empty());
            assert(esc(Seq::<char>::empty()) =~= Seq::<char>::empty());
            assert(esc(seq![s@[i as int]]) =~= esc_char(s@[i as int]));
        }
        i += 1;
    }
    proof {
        assert(s@.take(s@.len() as int) =~= s@);
    }
}

/// Escaping distributes over concatenation.
pub proof fn lemma_esc_concat(a: Seq<char>, b: Seq<char>)
    ensures
        esc(a + b) == esc(a) + esc(b),
    decreases a.len(),
{
    if a.len() == 0 {
        assert(a + b =~= b);
        assert(esc(a) + esc(b) =~= esc(b));
    } else {
        lemma_esc_concat(a.drop_first(), b);
        assert((a + b).len() > 0);
        assert((a + b)[0] == a[0]);
        assert((a + b).drop_first() =~= a.drop_first() + b);
        assert(esc(a + b) =~= esc(a) + esc(b));
    }
}

/// Appends the decimal digits of `n` to `out`.
pub fn push_u64_digits(out: &mut Vec<char>, n: u64)
    ensures
        final(out)@ == old(out)@ + dec_digits(n as nat),
    decreases n,
{
    if n < 10 {
        let c: char = match n {
            0 => '0',
            1 => '1',
            2 => '2',
            3 => '3',
            4 => '4',
            5 => '5',
            6 => '6',
            7 => '7',
            8 => '8',
            _ => '9',
        };
        proof {
            assert(c == digit_char(n as int));
        }
        out.push(c);
        proof {
            assert(old(out)@.push(c) =~= old(out)@ + seq![c]);
        }
    } else {
        push_u64_digits(out, n / 10);
        let d = n % 10;
        let c: char = match d {
            0 => '0',
            1 => '1',
            2 => '2',
            3 => '3',
            4 => '4',
            5 => '5',
            6 => '6',
            7 => '7',
            8 => '8',
            _ => '9',
        };
        proof {
            assert(c == digit_char(d as int));
        }
        out.push(c);
        proof {
            assert((old(out)@ + dec_digits((n / 10) as nat)).push(c) =~= old(out)@ + (dec_digits(
                (n / 10) as nat,
            ) + seq![c]));
        }
    }
}

/// Appends the written form of a signed integer to `out`.
pub fn push_i64(out: &mut Vec<char>, v: i64)
    ensures
        final(out)@ == old(out)@ + int_chars(v as int),
{
    if v < 0 {
        out.push('-');
        let m: u64 = if v == i64::MIN {
            9_223_372_036_854_775_808u64
        } else {
            (-v) as u64
        };
        proof {
            assert(m as nat == (-(v as int)) as nat);
            assert(old(out)@.push('-') =~= old(out)@ + seq!['-']);
        }
        push_u64_digits(out, m);
        proof {
            assert((old(out)@ + seq!['-']) + dec_digits(m as nat) =~= old(out)@ + (seq!['-']
                + dec_digits(m as nat)));
        }
    } else {
        push_u64_digits(out, v as u64);
    }
}

// ---------------------------------------------------------------------------
// Key-value lines
// ---------------------------------------------------------------------------

pub open spec fn starts_with(s: Seq<char>, p: Seq<char>) -> bool {
    p.len() <= s.len() && s.take(p.len() as int) == p
}

/// A line of the form `<key><escaped value>"`, where `key` already ends with
/// the opening quote.
pub open spec fn kv_line(key: Seq<char>, v: Seq<char>) -> Seq<char> {
    key + esc(v) + seq!['"']
}

/// The value of a `kv_line`-shaped line, if the whole line has that shape.
pub open spec fn parse_kv(line: Seq<char>, key: Seq<char>) -> Option<Seq<char>> {
    if starts_with(line, key) {
        match scan_quoted(line.skip(key.len() as int)) {
            Some(r) => {
                if key.len() + r.1 == line.len() {
                    Some(r.0)
                } else {
                    None
                }
            },
            None => None,
        }
    } else {
        None
    }
}

pub proof fn lemma_parse_kv_line(key: Seq<char>, v: Seq<char>)
    ensures
        parse_kv(kv_line(key, v), key) == Some(v),
{
    let line = kv_line(key, v);
    assert(line.take(key.len() as int) =~= key);
    assert(line.skip(key.len() as int) =~= esc(v) + seq!['"'] + Seq::<char>::empty());
    lemma_scan_esc(v, Seq::<char>::empty());
    assert(scan_quoted(line.skip(key.len() as int)) == Some((v, (esc(v).len() + 1) as nat)));
}

pub proof fn lemma_kv_line_clean(key: Seq<char>, v: Seq<char>)
    requires
        line_clean(key),
    ensures
        line_clean(kv_line(key, v)),
{
    lemma_esc_no_newline(v);
    let line = kv_line(key, v);
    assert forall|i: int| 0 <= i < line.len() implies line[i] != '\n' by {
        if i < key.len() {
            assert(line[i] == key[i]);
        } else if i < key.len() + esc(v).len() {
            assert(line[i] == esc(v)[i - key.len()]);
        } else {
            assert(line[i] == '"');
        }
    }
}

// ---------------------------------------------------------------------------
// Lines holding a list of quoted strings
// ---------------------------------------------------------------------------

/// `"a", "b", "c"` — the body of a list, without the surrounding brackets.
pub open spec fn render_list(vs: Seq<Seq<char>>) -> Seq<char>
    decreases vs.len(),
{
    if vs.len() == 0 {
        Seq::empty()
    } else if vs.len() == 1 {
        seq!['"'] + esc(vs[0]) + seq!['"']
    } else {
        seq!['"'] + esc(vs[0]) + seq!['"'] + seq![',', ' '] + render_list(vs.drop_first())
    }
}

/// Parses a non-empty comma-separated list of quoted strings, returning the
/// items and the number of characters consumed.
pub open spec fn parse_list(s: Seq<char>) -> Option<(Seq<Seq<char>>, nat)>
    decreases s.len(),
    via parse_list_dec
{
    if s.len() == 0 {
        None
    } else if s[0] != '"' {
        None
    } else {
        match scan_quoted(s.drop_first()) {
            Some(r) => {
                let rest = s.skip(1 + r.1 as int);
                if starts_with(rest, seq![',', ' ']) {
                    match parse_list(rest.skip(2)) {
                        Some(q) => Some((seq![r.0] + q.0, (1 + r.1 + 2 + q.1) as nat)),
                        None => None,
                    }
                } else {
                    Some((seq![r.0], (1 + r.1) as nat))
                }
            },
            None => None,
        }
    }
}

#[via_fn]
proof fn parse_list_dec(s: Seq<char>) {
    if s.len() > 0 && s[0] == '"' {
        if scan_quoted(s.drop_first()) is Some {
            lemma_scan_quoted_bounds(s.drop_first());
        }
    }
}

/// A full list line: `<key>"a", "b"]`, where `key` already ends with the
/// opening bracket.
pub open spec fn list_line(key: Seq<char>, vs: Seq<Seq<char>>) -> Seq<char> {
    key + render_list(vs) + seq![']']
}

pub open spec fn parse_list_line(line: Seq<char>, key: Seq<char>) -> Option<Seq<Seq<char>>> {
    if starts_with(line, key) {
        let body = line.skip(key.len() as int);
        if body.len() == 1 && body[0] == ']' {
            Some(Seq::empty())
        } else {
            match parse_list(body) {
                Some(r) => {
                    if r.1 + 1 == body.len() && body[r.1 as int] == ']' {
                        Some(r.0)
                    } else {
                        None
                    }
                },
                None => None,
            }
        }
    } else {
        None
    }
}

proof fn lemma_parse_render_list(vs: Seq<Seq<char>>, rest: Seq<char>)
    requires
        vs.len() >= 1,
        !starts_with(rest, seq![',', ' ']),
    ensures
        parse_list(render_list(vs) + rest) == Some((vs, render_list(vs).len() as nat)),
    decreases vs.len(),
{
    let t = render_list(vs) + rest;
    let v0 = vs[0];
    if vs.len() == 1 {
        assert(t =~= seq!['"'] + (esc(v0) + seq!['"'] + rest));
        assert(t[0] == '"');
        assert(t.drop_first() =~= esc(v0) + seq!['"'] + rest);
        lemma_scan_esc(v0, rest);
        let n = (esc(v0).len() + 1) as nat;
        assert(scan_quoted(t.drop_first()) == Some((v0, n)));
        assert(t.skip(1 + n as int) =~= rest);
        assert(parse_list(t) == Some((seq![v0], (1 + n) as nat)));
        assert(seq![v0] =~= vs);
        assert(render_list(vs).len() == 1 + n);
    } else {
        let tailr = render_list(vs.drop_first()) + rest;
        assert(t =~= seq!['"'] + (esc(v0) + seq!['"'] + (seq![',', ' '] + tailr)));
        assert(t[0] == '"');
        assert(t.drop_first() =~= esc(v0) + seq!['"'] + (seq![',', ' '] + tailr));
        lemma_scan_esc(v0, seq![',', ' '] + tailr);
        let n = (esc(v0).len() + 1) as nat;
        assert(scan_quoted(t.drop_first()) == Some((v0, n)));
        let after = t.skip(1 + n as int);
        assert(after =~= seq![',', ' '] + tailr);
        assert(after.take(2) =~= seq![',', ' ']);
        assert(starts_with(after, seq![',', ' ']));
        assert(after.skip(2) =~= tailr);
        lemma_parse_render_list(vs.drop_first(), rest);
        let q = (vs.drop_first(), render_list(vs.drop_first()).len() as nat);
        assert(parse_list(tailr) == Some(q));
        assert(parse_list(t) == Some((seq![v0] + vs.drop_first(), (1 + n + 2 + q.1) as nat)));
        assert(seq![v0] + vs.drop_first() =~= vs);
        assert(render_list(vs).len() == 1 + n + 2 + render_list(vs.drop_first()).len());
    }
}

pub proof fn lemma_parse_list_line(key: Seq<char>, vs: Seq<Seq<char>>)
    requires
        key.len() >= 1,
        key[0] != '"',
    ensures
        parse_list_line(list_line(key, vs), key) == Some(vs),
{
    let line = list_line(key, vs);
    assert(line.take(key.len() as int) =~= key);
    assert(starts_with(line, key));
    let body = line.skip(key.len() as int);
    assert(body =~= render_list(vs) + seq![']']);
    if vs.len() == 0 {
        assert(body =~= seq![']']);
    } else {
        assert(!starts_with(seq![']'], seq![',', ' ']));
        lemma_parse_render_list(vs, seq![']']);
        let n = render_list(vs).len();
        assert(parse_list(body) == Some((vs, n as nat)));
        assert(body.len() == n + 1);
        assert(body[n as int] == ']');
        assert(body.len() != 1) by {
            assert(render_list(vs).len() >= 2);
        }
    }
}

pub proof fn lemma_list_line_clean(key: Seq<char>, vs: Seq<Seq<char>>)
    requires
        line_clean(key),
    ensures
        line_clean(list_line(key, vs)),
    decreases vs.len(),
{
    if vs.len() == 0 {
        let line = list_line(key, vs);
        assert forall|i: int| 0 <= i < line.len() implies line[i] != '\n' by {
            if i < key.len() {
                assert(line[i] == key[i]);
            } else {
                assert(line[i] == ']');
            }
        }
    } else {
        lemma_esc_no_newline(vs[0]);
        let r = render_list(vs);
        let rt = render_list(vs.drop_first());
        lemma_list_line_clean(key, vs.drop_first());
        let line = list_line(key, vs);
        let linet = list_line(key, vs.drop_first());
        assert forall|i: int| 0 <= i < line.len() implies line[i] != '\n' by {
            if i < key.len() {
                assert(line[i] == key[i]);
            } else {
                let j = i - key.len();
                if vs.len() == 1 {
                    if j == 0 {
                        assert(r[j] == '"');
                    } else if j <= esc(vs[0]).len() {
                        assert(r[j] == esc(vs[0])[j - 1]);
                    } else if j == esc(vs[0]).len() + 1 {
                        assert(r[j] == '"');
                    } else {
                        assert(line[i] == ']');
                    }
                } else {
                    let head = seq!['"'] + esc(vs[0]) + seq!['"'] + seq![',', ' '];
                    assert(r =~= head + rt);
                    if j < head.len() {
                        assert(line[i] == head[j]);
                        if j == 0 {
                            assert(head[j] == '"');
                        } else if j <= esc(vs[0]).len() {
                            assert(head[j] == esc(vs[0])[j - 1]);
                        } else if j == esc(vs[0]).len() + 1 {
                            assert(head[j] == '"');
                        } else if j == esc(vs[0]).len() + 2 {
                            assert(head[j] == ',');
                        } else {
                            assert(head[j] == ' ');
                        }
                    } else {
                        assert(line[i] == linet[i - head.len()]);
                        assert(line_clean(linet));
                    }
                }
            }
        }
    }
}

// ---------------------------------------------------------------------------
// Executable line parsing
// ---------------------------------------------------------------------------

/// Whether the characters of `line` start with the characters of `p`.
pub fn vec_starts_with(line: &Vec<char>, p: &str) -> (r: bool)
    ensures
        r == starts_with(line@, p@),
{
    let n = p.unicode_len();
    if n > line.len() {
        return false;
    }
    let mut i: usize = 0;
    while i < n
        invariant
            i <= n,
            n == p@.len(),
            n <= line@.len(),
            forall|j: int| 0 <= j < i ==> line@[j] == p@[j],
        decreases n - i,
    {
        if line[i] != p.get_char(i) {
            proof {
                assert(line@.take(p@.len() as int)[i as int] != p@[i as int]);
            }
            return false;
        }
        i += 1;
    }
    proof {
        assert(line@.take(p@.len() as int) =~= p@);
    }
    true
}

/// Whether the characters of `line` are exactly the characters of `p`.
pub fn vec_eq_str(line: &Vec<char>, p: &str) -> (r: bool)
    ensures
        r == (line@ == p@),
{
    let n = p.unicode_len();
    if n != line.len() {
        return false;
    }
    let r = vec_starts_with(line, p);
    proof {
        if r {
            assert(line@.take(p@.len() as int) =~= line@);
        } else {
            if line@ == p@ {
                assert(line@.take(p@.len() as int) =~= p@);
            }
        }
    }
    r
}

/// Executable mirror of [`scan_quoted`], scanning `line` from index `i`.
pub fn scan_quoted_exec(line: &Vec<char>, i: usize) -> (r: Option<(Vec<char>, usize)>)
    requires
        i <= line.len(),
    ensures
        r is Some <==> scan_quoted(line@.skip(i as int)) is Some,
        r is Some ==> {
            let sp = scan_quoted(line@.skip(i as int))->Some_0;
            r->Some_0.0@ == sp.0 && r->Some_0.1 as nat == sp.1
        },
    decreases line.len() - i,
{
    let ghost s = line@.skip(i as int);
    if i == line.len() {
        proof {
            assert(s.len() == 0);
        }
        return None;
    }
    let c = line[i];
    proof {
        assert(s[0] == line@[i as int]);
        assert(s.drop_first() =~= line@.skip(i as int + 1));
    }
    if c == '"' {
        Some((Vec::new(), 1))
    } else if c == '\\' {
        if i + 1 == line.len() {
            proof {
                assert(s.len() < 2);
            }
            return None;
        }
        let e = line[i + 1];
        let u: Option<char> = if e == '\\' {
            Some('\\')
        } else if e == '"' {
            Some('"')
        } else if e == 'n' {
            Some('\n')
        } else if e == 'r' {
            Some('\r')
        } else if e == 't' {
            Some('\t')
        } else {
            None
        };
        proof {
            assert(s[1] == line@[i as int + 1]);
            assert(u == unesc_char(s[1]));
            assert(s.drop_first().drop_first() =~= line@.skip(i as int + 2));
        }
        match u {
            Some(d) => match scan_quoted_exec(line, i + 2) {
                Some((mut v, n)) => {
                    proof {
                        lemma_scan_quoted_bounds(line@.skip(i as int + 2));
                    }
                    v.insert(0, d);
                    proof {
                        assert(v@ =~= seq![d] + v@.drop_first());
                    }
                    Some((v, n + 2))
                },
                None => None,
            },
            None => None,
        }
    } else {
        match scan_quoted_exec(line, i + 1) {
            Some((mut v, n)) => {
                proof {
                    lemma_scan_quoted_bounds(line@.skip(i as int + 1));
                }
                v.insert(0, c);
                proof {
                    assert(v@ =~= seq![c] + v@.drop_first());
                }
                Some((v, n + 1))
            },
            None => None,
        }
    }
}

/// Executable mirror of [`parse_kv`]: the value of a key-value line.
pub fn parse_kv_exec(line: &Vec<char>, key: &str) -> (r: Option<String>)
    ensures
        r is Some <==> parse_kv(line@, key@) is Some,
        r is Some ==> r->Some_0@ == parse_kv(line@, key@)->Some_0,
{
    if !vec_starts_with(line, key) {
        return None;
    }
    let k = key.unicode_len();
    proof {
        assert(k <= line@.len());
    }
    match scan_quoted_exec(line, k) {
        Some((v, n)) => {
            proof {
                lemma_scan_quoted_bounds(line@.skip(k as int));
                assert(line@.skip(k as int).len() == line@.len() - k);
            }
            if line.len() - k == n {
                Some(chars_to_string(&v))
            } else {
                None
            }
        },
        None => None,
    }
}

/// Executable mirror of [`parse_list`], from index `i`.
fn parse_list_exec(line: &Vec<char>, i: usize) -> (r: Option<(Vec<String>, usize)>)
    requires
        i <= line.len(),
    ensures
        r is Some <==> parse_list(line@.skip(i as int)) is Some,
        r is Some ==> {
            let sp = parse_list(line@.skip(i as int))->Some_0;
            r->Some_0.0.deep_view() == sp.0 && r->Some_0.1 as nat == sp.1
        },
    decreases line.len() - i,
{
    let ghost s = line@.skip(i as int);
    if i == line.len() {
        proof {
            assert(s.len() == 0);
        }
        return None;
    }
    proof {
        assert(s[0] == line@[i as int]);
        assert(s.drop_first() =~= line@.skip(i as int + 1));
    }
    if line[i] != '"' {
        return None;
    }
    match scan_quoted_exec(line, i + 1) {
        Some((v, n)) => {
            proof {
                lemma_scan_quoted_bounds(line@.skip(i as int + 1));
                assert(s.skip(1 + n as int) =~= line@.skip(i as int + 1 + n as int));
            }
            proof {
                assert(line@.skip(i as int + 1).len() == line@.len() - i - 1);
            }
            let item = chars_to_string(&v);
            let after = i + 1 + n;
            let cont = if line.len() - after >= 2 {
                line[after] == ',' && line[after + 1] == ' '
            } else {
                false
            };
            proof {
                let rest = s.skip(1 + n as int);
                assert(rest =~= line@.skip(after as int));
                if cont {
                    assert(rest.take(2) =~= seq![',', ' ']);
                    assert(starts_with(rest, seq![',', ' ']));
                    assert(rest.skip(2) =~= line@.skip(after as int + 2));
                } else {
                    if starts_with(rest, seq![',', ' ']) {
                        assert(rest[0] == ',' && rest[1] == ' ');
                        assert(line@[after as int] == ',' && line@[after as int + 1] == ' ');
                        assert(false);
                    }
                }
            }
            if cont {
                match parse_list_exec(line, after + 2) {
                    Some((mut items, m)) => {
                        proof {
                            lemma_parse_list_consumed(line@.skip(after as int + 2));
                        }
                        items.insert(0, item);
                        proof {
                            assert(items.deep_view() =~= seq![items@[0]@]
                                + items.deep_view().drop_first());
                        }
                        Some((items, 1 + n + 2 + m))
                    },
                    None => None,
                }
            } else {
                let items = vec![item];
                proof {
                    assert(items.deep_view() =~= seq![item@]);
                }
                Some((items, 1 + n))
            }
        },
        None => None,
    }
}

pub proof fn lemma_parse_list_consumed(s: Seq<char>)
    requires
        parse_list(s) is Some,
    ensures
        1 <= parse_list(s)->Some_0.1 <= s.len(),
    decreases s.len(),
{
    let r = scan_quoted(s.drop_first());
    lemma_scan_quoted_bounds(s.drop_first());
    let rest = s.skip(1 + r->Some_0.1 as int);
    if starts_with(rest, seq![',', ' ']) && parse_list(rest.skip(2)) is Some {
        lemma_parse_list_consumed(rest.skip(2));
    }
}

/// Executable mirror of [`parse_list_line`]: the items of a full list line.
pub fn parse_list_line_exec(line: &Vec<char>, key: &str) -> (r: Option<Vec<String>>)
    ensures
        r is Some <==> parse_list_line(line@, key@) is Some,
        r is Some ==> r->Some_0.deep_view() == parse_list_line(line@, key@)->Some_0,
{
    if !vec_starts_with(line, key) {
        return None;
    }
    let k = key.unicode_len();
    proof {
        assert(k <= line@.len());
    }
    let ghost body = line@.skip(k as int);
    proof {
        assert(body.len() == line@.len() - k);
    }
    if line.len() - k == 1 && line[k] == ']' {
        proof {
            assert(body.len() == 1 && body[0] == ']');
        }
        let items: Vec<String> = Vec::new();
        proof {
            assert(items.deep_view() =~= Seq::<Seq<char>>::empty());
        }
        return Some(items);
    }
    proof {
        if body.len() == 1 && body[0] == ']' {
            assert(line@[k as int] == ']');
            assert(false);
        }
    }
    match parse_list_exec(line, k) {
        Some((items, n)) => {
            proof {
                lemma_parse_list_consumed(body);
            }
            if line.len() - k - n == 1 && line[k + n] == ']' {
                proof {
                    assert(body[n as int] == line@[k as int + n as int]);
                }
                Some(items)
            } else {
                proof {
                    if parse_list_line(line@, key@) is Some {
                        assert(body[n as int] == line@[k as int + n as int]);
                    }
                }
                None
            }
        },
        None => None,
    }
}

/// Executable signed-integer parsing with a range check: the whole tail of
/// `line` from `i` must be a decimal integer that fits an `i64`.
pub fn parse_i64_exec(line: &Vec<char>, i: usize) -> (r: Option<i64>)
    requires
        i <= line.len(),
    ensures
        r is Some <==> (parse_int(line@.skip(i as int)) is Some && i64::MIN <= parse_int(
            line@.skip(i as int),
        )->Some_0 <= i64::MAX),
        r is Some ==> r->Some_0 as int == parse_int(line@.skip(i as int))->Some_0,
{
    let ghost s = line@.skip(i as int);
    let neg = i < line.len() && line[i] == '-';
    let start = if neg {
        i + 1
    } else {
        i
    };
    proof {
        if neg {
            assert(s[0] == '-');
            assert(s.drop_first() =~= line@.skip(start as int));
        } else {
            if s.len() > 0 {
                assert(s[0] == line@[i as int]);
            }
        }
    }
    let ghost d = line@.skip(start as int);
    if start == line.len() {
        proof {
            assert(d.len() == 0);
            if neg {
                assert(s.len() == 1);
                assert(parse_int(s) is None);
            } else {
                assert(parse_int(s) is None);
            }
        }
        return None;
    }
    proof {
        if neg {
            assert(s.drop_first() =~= d);
        } else {
            assert(s =~= d);
        }
    }
    let mut acc: u128 = 0;
    let mut j: usize = start;
    let bound: u128 = 9_223_372_036_854_775_808;
    while j < line.len()
        invariant
            start <= j <= line.len(),
            i <= start,
            s == line@.skip(i as int),
            d == line@.skip(start as int),
            start < line.len(),
            neg ==> start == i + 1 && s.len() >= 1 && s[0] == '-' && d == s.drop_first(),
            !neg ==> start == i && d == s && s[0] != '-',
            bound == 9_223_372_036_854_775_808u128,
            acc <= bound,
            forall|q: int| 0 <= q < j - start ==> is_digit(d[q]),
            digits_val(d, 0) == digits_val(line@.skip(j as int), acc as nat),
        decreases line.len() - j,
    {
        let c = line[j];
        let ghost rem = line@.skip(j as int);
        proof {
            assert(rem[0] == line@[j as int]);
            assert(rem.drop_first() =~= line@.skip(j as int + 1));
        }
        let cu = c as u32;
        if cu < 48 || cu > 57 {
            proof {
                assert(!is_digit(d[j - start]));
                assert(!all_digits(d));
            }
            return None;
        }
        let dv: u128 = (cu - 48) as u128;
        proof {
            assert(digit_val(rem[0]) == dv as int);
        }
        acc = acc * 10 + dv;
        if acc > bound {
            proof {
                if parse_int(s) is Some {
                    assert(all_digits(d));
                    let tail = line@.skip(j as int + 1);
                    assert(tail =~= d.skip(j + 1 - start as int));
                    assert(all_digits(tail)) by {
                        assert(forall|q: int|
                            0 <= q < tail.len() ==> tail[q] == d[q + (j + 1 - start as int)]);
                    }
                    lemma_digits_val_ge_acc(tail, acc as nat);
                    assert(digits_val(d, 0) > bound);
                    if neg {
                        assert(parse_int(s)->Some_0 == -(digits_val(d, 0) as int));
                        assert(parse_int(s)->Some_0 < i64::MIN);
                    } else {
                        assert(s =~= d);
                        assert(parse_int(s)->Some_0 == digits_val(d, 0) as int);
                        assert(parse_int(s)->Some_0 > i64::MAX);
                    }
                }
            }
            return None;
        }
        j += 1;
    }
    proof {
        assert(line@.skip(j as int).len() == 0);
        assert(digits_val(d, 0) == acc as nat);
        assert(all_digits(d));
        if neg {
            assert(s.len() >= 2);
            assert(parse_int(s) == Some(-(digits_val(d, 0) as int)));
        } else {
            assert(s =~= d);
            assert(s.len() >= 1);
            assert(parse_int(s) == Some(digits_val(d, 0) as int));
        }
    }
    if neg {
        if acc == bound {
            Some(i64::MIN)
        } else {
            Some(-(acc as i64))
        }
    } else {
        if acc == bound {
            proof {
                assert(parse_int(s)->Some_0 > i64::MAX);
            }
            None
        } else {
            Some(acc as i64)
        }
    }
}

/// The persisted text could not be decoded: it is not a well-formed store
/// file.
#[derive(Debug, PartialEq, Eq)]
pub struct DecodeError;

// ---------------------------------------------------------------------------
// Executable writers
// ---------------------------------------------------------------------------

/// Appends the rendered list body for the items from index `i` on.
pub fn push_render_list(out: &mut Vec<char>, vs: &Vec<String>, i: usize)
    requires
        i <= vs.len(),
    ensures
        final(out)@ == old(out)@ + render_list(vs.deep_view().skip(i as int)),
    decreases vs.len() - i,
{
    let ghost rest = vs.deep_view().skip(i as int);
    proof {
        assert(vs.deep_view().len() == vs@.len());
    }
    if i == vs.len() {
        proof {
            assert(rest.len() == 0);
            assert(old(out)@ + render_list(rest) =~= old(out)@);
        }
        return ;
    }
    proof {
        assert(rest[0] == vs.deep_view()[i as int]);
        assert(vs.deep_view()[i as int] == vs@[i as int]@);
        assert(rest.drop_first() =~= vs.deep_view().skip(i + 1));
    }
    out.push('"');
    push_esc(out, vs[i].as_str());
    out.push('"');
    if i + 1 < vs.len() {
        out.push(',');
        out.push(' ');
        push_render_list(out, vs, i + 1);
        proof {
            assert(final(out)@ =~= old(out)@ + render_list(rest));
        }
    } else {
        proof {
            assert(rest.len() == 1);
            assert(final(out)@ =~= old(out)@ + render_list(rest));
        }
    }
}

/// Appends a full key-value line, newline included.
pub fn push_kv_line(out: &mut Vec<char>, key: &str, v: &str)
    ensures
        final(out)@ == old(out)@ + kv_line(key@, v@) + seq!['\n'],
{
    append_str(out, key);
    push_esc(out, v);
    out.push('"');
    out.push('\n');
    proof {
        assert(final(out)@ =~= old(out)@ + kv_line(key@, v@) + seq!['\n']);
    }
}

/// Appends a full list line, newline included.
pub fn push_list_line(out: &mut Vec<char>, key: &str, vs: &Vec<String>)
    ensures
        final(out)@ == old(out)@ + list_line(key@, vs.deep_view()) + seq!['\n'],
{
    append_str(out, key);
    proof {
        assert(vs.deep_view().skip(0) =~= vs.deep_view());
    }
    push_render_list(out, vs, 0);
    out.push(']');
    out.push('\n');
    proof {
        assert(final(out)@ =~= old(out)@ + list_line(key@, vs.deep_view()) + seq!['\n']);
    }
}

/// Executable mirror of [`split_lines`], from index `i`.
pub fn split_lines_exec(v: &Vec<char>, i: usize) -> (r: Vec<Vec<char>>)
    requires
        i <= v.len(),
    ensures
        r.deep_view() == split_lines(v@.skip(i as int)),
    decreases v.len() - i,
{
    let ghost s = v@.skip(i as int);
    if i == v.len() {
        proof {
            assert(s.len() == 0);
        }
        let r: Vec<Vec<char>> = Vec::new();
        proof {
            assert(r.deep_view() =~= split_lines(s));
        }
        return r;
    }
    proof {
        assert(s[0] == v@[i as int]);
        assert(s.drop_first() =~= v@.skip(i as int + 1));
    }
    let mut rest = split_lines_exec(v, i + 1);
    let ghost restv = rest.deep_view();
    if v[i] == '\n' {
        let empty_line: Vec<char> = Vec::new();
        rest.insert(0, empty_line);
        proof {
            assert(rest.deep_view() =~~= seq![Seq::<char>::empty()] + restv);
        }
        rest
    } else if rest.len() == 0 {
        let first: Vec<char> = vec![v[i]];
        let r: Vec<Vec<char>> = vec![first];
        proof {
            assert(restv.len() == 0);
            assert(r.deep_view() =~~= seq![seq![v@[i as int]]]);
        }
        r
    } else {
        let mut first = rest.remove(0);
        let ghost f0 = first@;
        first.insert(0, v[i]);
        proof {
            assert(first@ =~= seq![v@[i as int]] + f0);
        }
        rest.insert(0, first);
        proof {
            assert(restv[0] == f0);
            assert(rest.deep_view() =~~= seq![seq![v@[i as int]] + restv[0]] + restv.drop_first());
        }
        rest
    }
}

proof fn lemma_digits_val_ge_acc(s: Seq<char>, acc: nat)
    requires
        all_digits(s),
    ensures
        digits_val(s, acc) >= acc,
    decreases s.len(),
{
    if s.len() > 0 {
        assert(all_digits(s.drop_first())) by {
            assert(forall|q: int|
                0 <= q < s.drop_first().len() ==> s.drop_first()[q] == s[q + 1]);
        }
        lemma_digits_val_ge_acc(s.drop_first(), (acc * 10 + digit_val(s[0])) as nat);
        assert(acc * 10 >= acc) by (nonlinear_arith);
    }
}

} // verus!
