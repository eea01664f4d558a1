//! Characters, decimal numerals, and line/token splitting.
//!
//! Everything here works over `Seq<char>` in specifications and over
//! `Vec<char>` in executable code. The decimal numeral of an unsigned
//! integer is written without a sign and without leading zeroes.

use vstd::prelude::*;
use vstd::string::StrSliceExecFns;

verus! {

/// A decimal digit character, `'0'` through `'9'`.
pub open spec fn is_digit(c: char) -> bool {
    48 <= c as u32 <= 57
}

/// The numeric value of a digit character.
pub open spec fn digit_val(c: char) -> nat {
    (c as u32 - 48) as nat
}

/// The digit character for a value below ten.
pub open spec fn digit_char(d: nat) -> char {
    (48 + d) as char
}

/// The canonical decimal numeral of `n`: no sign, no leading zeroes.
pub open spec fn dec_digits(n: nat) -> Seq<char>
    decreases n,
{
    if n < 10 {
        seq![digit_char(n)]
    } else {
        dec_digits(n / 10).push(digit_char(n % 10))
    }
}

/// Every character of `s` is a decimal digit.
pub open spec fn all_digits(s: Seq<char>) -> bool {
    forall|i: int| 0 <= i < s.len() ==> is_digit(s[i])
}

/// The value of a digit string, most significant digit first.
pub open spec fn dec_value(s: Seq<char>) -> nat
    decreases s.len(),
{
    if s.len() == 0 {
        0
    } else {
        dec_value(s.drop_last()) * 10 + digit_val(s.last())
    }
}

/// How a token parses as a `u32`: it must be non-empty, all digits,
/// and its value must fit. Leading zeroes are accepted.
pub open spec fn parse_u32(s: Seq<char>) -> Option<u32> {
    if s.len() > 0 && all_digits(s) && dec_value(s) <= u32::MAX {
        Some(dec_value(s) as u32)
    } else {
        None
    }
}

/// The canonical numeral of `n` is non-empty, consists of digits only,
/// and evaluates back to `n`.
pub proof fn lemma_dec_digits(n: nat)
    ensures
        dec_digits(n).len() >= 1,
        all_digits(dec_digits(n)),
        dec_value(dec_digits(n)) == n,
    decreases n,
{
    if n < 10 {
        let s = dec_digits(n);
        assert(s =~= seq![digit_char(n)]);
        assert(s.drop_last() =~= Seq::<char>::empty());
        assert(dec_value(s.drop_last()) == 0);
        assert(s.last() == digit_char(n));
        assert(digit_val(digit_char(n)) == n);
        assert(dec_value(s) == dec_value(s.drop_last()) * 10 + digit_val(s.last()));
    } else {
        lemma_dec_digits(n / 10);
        let pre = dec_digits(n / 10);
        let whole = pre.push(digit_char(n % 10));
        assert(whole.drop_last() =~= pre);
        assert(whole.last() == digit_char(n % 10));
        assert(digit_val(digit_char(n % 10)) == n % 10);
        assert(dec_value(whole) == (n / 10) * 10 + n % 10);
        assert((n / 10) * 10 + n % 10 == n) by (nonlinear_arith);
    }
}

/// A numeral, being all digits, contains neither a space nor a newline.
pub proof fn lemma_digits_no_separators(s: Seq<char>)
    requires
        all_digits(s),
    ensures
        forall|i: int| 0 <= i < s.len() ==> s[i] != ' ' && s[i] != '\n',
{
    assert forall|i: int| 0 <= i < s.len() implies s[i] != ' ' && s[i] != '\n' by {
        assert(is_digit(s[i]));
    }
}

/// The digit character of a value below ten.
pub fn digit_to_char(d: u32) -> (c: char)
    requires
        d < 10,
    ensures
        c == digit_char(d as nat),
{
    match d {
        0 => '0',
        1 => '1',
        2 => '2',
        3 => '3',
        4 => '4',
        5 => '5',
        6 => '6',
        7 => '7',
        8 => '8',
        _ => '9',
    }
}

/// Appends the canonical decimal numeral of `n` to `out`.
pub fn push_dec(n: u32, out: &mut Vec<char>)
    ensures
        final(out)@ == old(out)@ + dec_digits(n as nat),
    decreases n,
{
    if n < 10 {
        out.push(digit_to_char(n));
        assert(out@ =~= old(out)@ + dec_digits(n as nat));
    } else {
        push_dec(n / 10, out);
        out.push(digit_to_char(n % 10));
        assert(out@ =~= old(out)@ + dec_digits(n as nat));
    }
}


/// `dec_value` never shrinks as a string is extended to the right.
pub proof fn lemma_dec_value_take_le(s: Seq<char>, k: int)
    requires
        0 <= k <= s.len(),
    ensures
        dec_value(s.take(k)) <= dec_value(s),
    decreases s.len() - k,
{
    if k < s.len() {
        assert(s.take(k + 1).drop_last() =~= s.take(k));
        assert(s.take(k + 1).last() == s[k]);
        assert(dec_value(s.take(k + 1)) == dec_value(s.take(k)) * 10 + digit_val(s[k]));
        lemma_dec_value_take_le(s, k + 1);
    } else {
        assert(s.take(k) =~= s);
    }
}

/// Parses a token as a `u32` exactly as `parse_u32` says.
pub fn parse_u32_token(t: &Vec<char>) -> (r: Option<u32>)
    ensures
        r == parse_u32(t@),
{
    if t.len() == 0 {
        return None;
    }
    let ghost s = t@;
    let mut i: usize = 0;
    let mut acc: u32 = 0;
    while i < t.len()
        invariant
            0 <= i <= s.len(),
            s == t@,
            s.len() > 0,
            all_digits(s.take(i as int)),
            acc == dec_value(s.take(i as int)),
        decreases s.len() - i,
    {
        let c = t[i];
        let u = c as u32;
        if u < 48 || u > 57 {
            assert(!is_digit(s[i as int]));
            assert(!all_digits(s));
            return None;
        }
        let d = u - 48;
        proof {
            assert(s.take(i + 1).drop_last() =~= s.take(i as int));
            assert(s.take(i + 1).last() == s[i as int]);
            assert(digit_val(s[i as int]) == d);
            assert(dec_value(s.take(i + 1)) == acc * 10 + d);
        }
        if acc > (u32::MAX - d) / 10 {
            proof {
                assert(acc * 10 + d > u32::MAX) by (nonlinear_arith)
                    requires
                        acc > (u32::MAX - d) / 10,
                        d <= 9,
                ;
                lemma_dec_value_take_le(s, i + 1);
                assert(dec_value(s) > u32::MAX);
            }
            return None;
        }
        acc = acc * 10 + d;
        i = i + 1;
    }
    assert(s.take(s.len() as int) =~= s);
    Some(acc)
}


/// How many spaces a string holds.
pub open spec fn space_count(s: Seq<char>) -> nat
    decreases s.len(),
{
    if s.len() == 0 {
        0
    } else {
        space_count(s.drop_last()) + if s.last() == ' ' { 1nat } else { 0nat }
    }
}

/// The index of the first space, or the length when there is none.
pub open spec fn first_space(s: Seq<char>) -> int
    decreases s.len(),
{
    if s.len() == 0 {
        0
    } else if s[0] == ' ' {
        0
    } else {
        1 + first_space(s.skip(1))
    }
}

/// The index of the first newline, or the length when there is none.
pub open spec fn first_nl(s: Seq<char>) -> int
    decreases s.len(),
{
    if s.len() == 0 {
        0
    } else if s[0] == '\n' {
        0
    } else {
        1 + first_nl(s.skip(1))
    }
}

/// `first_space(s) == m` exactly when the characters before `m` are not
/// spaces and the one at `m` (if any) is.
pub proof fn lemma_first_space_at(s: Seq<char>, m: int)
    requires
        0 <= m <= s.len(),
        forall|k: int| 0 <= k < m ==> s[k] != ' ',
        m < s.len() ==> s[m] == ' ',
    ensures
        first_space(s) == m,
    decreases s.len(),
{
    if s.len() == 0 {
    } else if m == 0 {
    } else {
        assert(s[0] != ' ');
        let rest = s.skip(1);
        assert forall|k: int| 0 <= k < m - 1 implies rest[k] != ' ' by {
            assert(rest[k] == s[k + 1]);
        }
        assert(m - 1 < rest.len() ==> rest[m - 1] == s[m]);
        lemma_first_space_at(rest, m - 1);
    }
}

/// The same, for newlines.
pub proof fn lemma_first_nl_at(s: Seq<char>, m: int)
    requires
        0 <= m <= s.len(),
        forall|k: int| 0 <= k < m ==> s[k] != '\n',
        m < s.len() ==> s[m] == '\n',
    ensures
        first_nl(s) == m,
    decreases s.len(),
{
    if s.len() == 0 {
    } else if m == 0 {
    } else {
        assert(s[0] != '\n');
        let rest = s.skip(1);
        assert forall|k: int| 0 <= k < m - 1 implies rest[k] != '\n' by {
            assert(rest[k] == s[k + 1]);
        }
        assert(m - 1 < rest.len() ==> rest[m - 1] == s[m]);
        lemma_first_nl_at(rest, m - 1);
    }
}

/// `first_nl` stays within the string.
pub proof fn lemma_first_nl_bounds(s: Seq<char>)
    ensures
        0 <= first_nl(s) <= s.len(),
        forall|k: int| 0 <= k < first_nl(s) ==> s[k] != '\n',
        first_nl(s) < s.len() ==> s[first_nl(s)] == '\n',
    decreases s.len(),
{
    if s.len() == 0 {
    } else if s[0] == '\n' {
    } else {
        let rest = s.skip(1);
        lemma_first_nl_bounds(rest);
        assert forall|k: int| 0 <= k < first_nl(s) implies s[k] != '\n' by {
            if k > 0 {
                assert(s[k] == rest[k - 1]);
            }
        }
        assert(first_nl(s) < s.len() ==> s[first_nl(s)] == rest[first_nl(s) - 1]);
    }
}

/// Splitting a line on its single space: the part before and the part
/// after, or nothing when the line does not hold exactly one space.
pub open spec fn split2(l: Seq<char>) -> Option<(Seq<char>, Seq<char>)> {
    if space_count(l) == 1 {
        let i = first_space(l);
        Some((l.take(i), l.skip(i + 1)))
    } else {
        None
    }
}

/// A string with at least one space has a first space inside it.
pub proof fn lemma_space_count_pos(s: Seq<char>)
    requires
        space_count(s) > 0,
    ensures
        exists|k: int| 0 <= k < s.len() && s[k] == ' ',
    decreases s.len(),
{
    if s.last() == ' ' {
        assert(s[s.len() - 1] == ' ');
    } else {
        lemma_space_count_pos(s.drop_last());
        let k = choose|k: int| 0 <= k < s.drop_last().len() && s.drop_last()[k] == ' ';
        assert(s[k] == ' ');
    }
}

/// Splits a line on its single space, exactly as `split2` says.
pub fn split2_exec(l: &Vec<char>) -> (r: Option<(Vec<char>, Vec<char>)>)
    ensures
        match r {
            Some(p) => split2(l@) == Some((p.0@, p.1@)),
            None => split2(l@) == None::<(Seq<char>, Seq<char>)>,
        },
{
    let ghost s = l@;
    let mut i: usize = 0;
    let mut cnt: usize = 0;
    while i < l.len()
        invariant
            s == l@,
            0 <= i <= s.len(),
            cnt <= i,
            cnt == space_count(s.take(i as int)),
        decreases s.len() - i,
    {
        proof {
            assert(s.take(i + 1).drop_last() =~= s.take(i as int));
            assert(s.take(i + 1).last() == s[i as int]);
        }
        if l[i] == ' ' {
            cnt = cnt + 1;
        }
        i = i + 1;
    }
    assert(s.take(s.len() as int) =~= s);
    if cnt != 1 {
        return None;
    }
    proof {
        lemma_space_count_pos(s);
    }
    let mut fi: usize = 0;
    while fi < l.len() && l[fi] != ' '
        invariant
            s == l@,
            0 <= fi < s.len(),
            forall|k: int| 0 <= k < fi ==> s[k] != ' ',
            exists|k: int| fi <= k < s.len() && s[k] == ' ',
        decreases s.len() - fi,
    {
        proof {
            let k = choose|k: int| fi <= k < s.len() && s[k] == ' ';
            assert(k > fi);
        }
        fi = fi + 1;
    }
    assert(s[fi as int] == ' ');
    proof {
        lemma_first_space_at(s, fi as int);
    }
    let mut before: Vec<char> = Vec::new();
    let mut j: usize = 0;
    while j < fi
        invariant
            s == l@,
            fi < s.len(),
            0 <= j <= fi,
            before@ == s.take(fi as int).take(j as int),
        decreases fi - j,
    {
        before.push(l[j]);
        proof {
            assert(before@ =~= s.take(fi as int).take(j + 1));
        }
        j = j + 1;
    }
    assert(before@ =~= s.take(fi as int));
    let mut after: Vec<char> = Vec::new();
    let mut j2: usize = fi + 1;
    while j2 < l.len()
        invariant
            s == l@,
            fi + 1 <= j2 <= s.len(),
            after@ == s.subrange(fi + 1, j2 as int),
        decreases s.len() - j2,
    {
        after.push(l[j2]);
        proof {
            assert(after@ =~= s.subrange(fi + 1, j2 + 1));
        }
        j2 = j2 + 1;
    }
    assert(after@ =~= s.skip(fi + 1));
    Some((before, after))
}


/// The lines of a text: segments between newlines. A final segment left
/// empty by a trailing newline is not a line.
pub open spec fn split_lines(s: Seq<char>) -> Seq<Seq<char>>
    decreases s.len(),
    via split_lines_dec
{
    if s.len() == 0 {
        Seq::empty()
    } else {
        let i = first_nl(s);
        if i == s.len() {
            seq![s]
        } else {
            seq![s.take(i)] + split_lines(s.skip(i + 1))
        }
    }
}

#[via_fn]
proof fn split_lines_dec(s: Seq<char>) {
    lemma_first_nl_bounds(s);
}

/// Splits a text into its lines, exactly as `split_lines` says.
pub fn split_lines_exec(s: &Vec<char>) -> (r: Vec<Vec<char>>)
    ensures
        r.deep_view() == split_lines(s@),
{
    let ghost w = s@;
    let mut r: Vec<Vec<char>> = Vec::new();
    let mut pos: usize = 0;
    proof {
        assert(r.deep_view() =~~= Seq::<Seq<char>>::empty());
        assert(w.skip(0) =~= w);
    }
    while pos < s.len()
        invariant
            w == s@,
            0 <= pos <= w.len(),
            r.deep_view() + split_lines(w.skip(pos as int)) == split_lines(w),
        decreases w.len() - pos,
    {
        let ghost t = w.skip(pos as int);
        let mut j: usize = pos;
        let mut line: Vec<char> = Vec::new();
        while j < s.len() && s[j] != '\n'
            invariant
                w == s@,
                pos <= j <= w.len(),
                line@ == w.subrange(pos as int, j as int),
                forall|k: int| pos <= k < j ==> w[k] != '\n',
            decreases w.len() - j,
        {
            line.push(s[j]);
            proof {
                assert(line@ =~= w.subrange(pos as int, j + 1));
            }
            j = j + 1;
        }
        proof {
            assert forall|k: int| 0 <= k < j - pos implies t[k] != '\n' by {
                assert(t[k] == w[pos + k]);
            }
            assert(j < w.len() ==> t[j - pos] == w[j as int]);
            lemma_first_nl_at(t, j - pos);
            assert(line@ =~= t.take(j - pos));
        }
        let ghost old_r = r.deep_view();
        r.push(line);
        proof {
            assert(r.deep_view() =~~= old_r.push(line@));
        }
        if j < s.len() {
            proof {
                assert(t.skip(j - pos + 1) =~= w.skip(j + 1));
                assert(split_lines(t) == seq![line@] + split_lines(w.skip(j + 1)));
                assert(old_r.push(line@) + split_lines(w.skip(j + 1)) =~~= (old_r
                    + split_lines(t)));
            }
            pos = j + 1;
        } else {
            proof {
                assert(t.take(j - pos) =~= t);
                assert(split_lines(t) == seq![line@]);
                assert(w.skip(w.len() as int) =~= Seq::<char>::empty());
                assert(old_r.push(line@) + split_lines(w.skip(w.len() as int)) =~~= (old_r
                    + split_lines(t)));
            }
            pos = j;
        }
    }
    proof {
        assert(w.skip(w.len() as int) =~= Seq::<char>::empty());
        assert(r.deep_view() =~~= split_lines(w));
    }
    r
}

/// The characters of a string slice, in order.
pub fn chars_of(s: &str) -> (r: Vec<char>)
    ensures
        r@ == s@,
{
    let n = s.unicode_len();
    let mut r: Vec<char> = Vec::new();
    let mut i: usize = 0;
    while i < n
        invariant
            n == s@.len(),
            0 <= i <= n,
            r@ == s@.take(i as int),
        decreases n - i,
    {
        r.push(s.get_char(i));
        proof {
            assert(r@ =~= s@.take(i + 1));
        }
        i = i + 1;
    }
    assert(r@ =~= s@);
    r
}

/// Relies on `String::push`: appends one character to the string.
#[verifier::external_body]
fn push_char(s: &mut String, c: char)
    ensures
        final(s)@ == old(s)@.push(c),
{
    s.push(c);
}

/// A string holding exactly the given characters, in order.
pub fn string_of(cs: &Vec<char>) -> (r: String)
    ensures
        r@ == cs@,
{
    let mut r = String::new();
    let mut i: usize = 0;
    while i < cs.len()
        invariant
            0 <= i <= cs@.len(),
            r@ == cs@.take(i as int),
        decreases cs@.len() - i,
    {
        push_char(&mut r, cs[i]);
        proof {
            assert(r@ =~= cs@.take(i + 1));
        }
        i = i + 1;
    }
    assert(r@ =~= cs@);
    r
}


/// Space counting is additive over concatenation.
pub proof fn lemma_space_count_add(a: Seq<char>, b: Seq<char>)
    ensures
        space_count(a + b) == space_count(a) + space_count(b),
    decreases b.len(),
{
    if b.len() == 0 {
        assert(a + b =~= a);
    } else {
        assert((a + b).drop_last() =~= a + b.drop_last());
        assert((a + b).last() == b.last());
        lemma_space_count_add(a, b.drop_last());
    }
}

/// A string without spaces counts zero spaces.
pub proof fn lemma_space_count_zero(s: Seq<char>)
    requires
        forall|i: int| 0 <= i < s.len() ==> s[i] != ' ',
    ensures
        space_count(s) == 0,
    decreases s.len(),
{
    if s.len() > 0 {
        assert(s[s.len() - 1] != ' ');
        lemma_space_count_zero(s.drop_last());
    }
}

/// Two space-free tokens joined by one space split back into themselves.
pub proof fn lemma_split2_exact(a: Seq<char>, b: Seq<char>)
    requires
        forall|i: int| 0 <= i < a.len() ==> a[i] != ' ',
        forall|i: int| 0 <= i < b.len() ==> b[i] != ' ',
    ensures
        split2(a + seq![' '] + b) == Some((a, b)),
{
    let s = a + seq![' '] + b;
    let sp = seq![' '];
    assert(sp.drop_last() =~= Seq::<char>::empty());
    assert(space_count(Seq::<char>::empty()) == 0);
    assert(sp.last() == ' ');
    assert(space_count(sp) == 1);
    lemma_space_count_zero(a);
    lemma_space_count_zero(b);
    lemma_space_count_add(a, sp);
    lemma_space_count_add(a + sp, b);
    assert(space_count(s) == 1);
    assert forall|i: int| 0 <= i < a.len() implies s[i] != ' ' by {
        assert(s[i] == a[i]);
    }
    assert(s[a.len() as int] == ' ');
    lemma_first_space_at(s, a.len() as int);
    assert(s.take(a.len() as int) =~= a);
    assert(s.skip(a.len() as int + 1) =~= b);
}

} // verus!
