//! Character-level text utilities: trimming, decimal/hex parsing and
//! rendering, and the small pattern matchers the register table needs.

use vstd::prelude::*;
use vstd::string::*;

verus! {

/// True of characters treated as blank space when cell text is
/// trimmed: the Unicode White_Space set, as Rust's whitespace trim
/// takes it.
pub open spec fn is_space_char(c: char) -> bool {
    ||| c == ' '
    ||| c == '\t'
    ||| c == '\n'
    ||| c == '\u{000B}'
    ||| c == '\u{000C}'
    ||| c == '\r'
    ||| c == '\u{0085}'
    ||| c == '\u{00A0}'
    ||| c == '\u{1680}'
    ||| (0x2000 <= c as u32 && c as u32 <= 0x200A)
    ||| c == '\u{2028}'
    ||| c == '\u{2029}'
    ||| c == '\u{202F}'
    ||| c == '\u{205F}'
    ||| c == '\u{3000}'
}

pub open spec fn is_digit(c: char) -> bool {
    48 <= c as u32 && c as u32 <= 57
}

pub open spec fn digit_val(c: char) -> nat {
    (c as u32 - 48) as nat
}

pub open spec fn all_digits(s: Seq<char>) -> bool {
    forall|i: int| 0 <= i < s.len() ==> is_digit(#[trigger] s[i])
}

/// Value of a string of decimal digits, most significant first.
pub open spec fn dec_value(s: Seq<char>) -> nat
    decreases s.len(),
{
    if s.len() == 0 {
        0
    } else {
        dec_value(s.drop_last()) * 10 + digit_val(s.last())
    }
}

pub open spec fn is_hex_digit(c: char) -> bool {
    is_digit(c) || (97 <= c as u32 && c as u32 <= 102) || (65 <= c as u32 && c as u32 <= 70)
}

pub open spec fn hex_val(c: char) -> nat {
    if is_digit(c) {
        digit_val(c)
    } else if 97 <= c as u32 && c as u32 <= 102 {
        (c as u32 - 87) as nat
    } else {
        (c as u32 - 55) as nat
    }
}

pub open spec fn all_hex_digits(s: Seq<char>) -> bool {
    forall|i: int| 0 <= i < s.len() ==> is_hex_digit(#[trigger] s[i])
}

/// Value of a string of hexadecimal digits, most significant first.
pub open spec fn hex_value(s: Seq<char>) -> nat
    decreases s.len(),
{
    if s.len() == 0 {
        0
    } else {
        hex_value(s.drop_last()) * 16 + hex_val(s.last())
    }
}

/// The character for one digit value below sixteen, upper case.
pub open spec fn digit_char(d: nat) -> char {
    if d == 0 { '0' } else if d == 1 { '1' } else if d == 2 { '2' } else if d == 3 { '3' }
    else if d == 4 { '4' } else if d == 5 { '5' } else if d == 6 { '6' } else if d == 7 { '7' }
    else if d == 8 { '8' } else if d == 9 { '9' } else if d == 10 { 'A' } else if d == 11 { 'B' }
    else if d == 12 { 'C' } else if d == 13 { 'D' } else if d == 14 { 'E' } else { 'F' }
}

/// Decimal rendering of a number, no leading zeros, zero as "0".
pub open spec fn dec_render(n: nat) -> Seq<char>
    decreases n,
{
    if n < 10 {
        seq![digit_char(n)]
    } else {
        dec_render(n / 10) + seq![digit_char(n % 10)]
    }
}

/// Upper-case hexadecimal rendering, no leading zeros, zero as "0".
pub open spec fn hex_render(n: nat) -> Seq<char>
    decreases n,
{
    if n < 16 {
        seq![digit_char(n)]
    } else {
        hex_render(n / 16) + seq![digit_char(n % 16)]
    }
}

/// The characters a trim removes: all blank space, or, where `ht` is
/// set, only the space and tab characters a series-argument strip takes.
pub open spec fn is_trim_char(c: char, ht: bool) -> bool {
    if ht {
        c == ' ' || c == '\t'
    } else {
        is_space_char(c)
    }
}

/// The given string without leading trim characters.
pub open spec fn trim_left(s: Seq<char>, ht: bool) -> Seq<char>
    decreases s.len(),
{
    if s.len() > 0 && is_trim_char(s[0], ht) {
        trim_left(s.drop_first(), ht)
    } else {
        s
    }
}

/// The given string without trailing trim characters.
pub open spec fn trim_right(s: Seq<char>, ht: bool) -> Seq<char>
    decreases s.len(),
{
    if s.len() > 0 && is_trim_char(s.last(), ht) {
        trim_right(s.drop_last(), ht)
    } else {
        s
    }
}

/// The given string without leading or trailing trim characters.
pub open spec fn trimmed(s: Seq<char>, ht: bool) -> Seq<char> {
    trim_right(trim_left(s, ht), ht)
}

/// Appends the character for one digit value below sixteen.
pub fn append_digit(out: &mut String, d: u8)
    requires
        d < 16,
    ensures
        final(out)@ == old(out)@ + seq![digit_char(d as nat)],
{
    match d {
        0 => { proof { reveal_strlit("0"); } out.append("0"); },
        1 => { proof { reveal_strlit("1"); } out.append("1"); },
        2 => { proof { reveal_strlit("2"); } out.append("2"); },
        3 => { proof { reveal_strlit("3"); } out.append("3"); },
        4 => { proof { reveal_strlit("4"); } out.append("4"); },
        5 => { proof { reveal_strlit("5"); } out.append("5"); },
        6 => { proof { reveal_strlit("6"); } out.append("6"); },
        7 => { proof { reveal_strlit("7"); } out.append("7"); },
        8 => { proof { reveal_strlit("8"); } out.append("8"); },
        9 => { proof { reveal_strlit("9"); } out.append("9"); },
        10 => { proof { reveal_strlit("A"); } out.append("A"); },
        11 => { proof { reveal_strlit("B"); } out.append("B"); },
        12 => { proof { reveal_strlit("C"); } out.append("C"); },
        13 => { proof { reveal_strlit("D"); } out.append("D"); },
        14 => { proof { reveal_strlit("E"); } out.append("E"); },
        _ => { proof { reveal_strlit("F"); } out.append("F"); },
    }
    proof {
        assert(out@ =~= old(out)@ + seq![digit_char(d as nat)]);
    }
}

/// Renders a number as decimal text.
pub fn u128_to_dec(n: u128) -> (r: String)
    ensures
        r@ == dec_render(n as nat),
    decreases n,
{
    if n < 10 {
        let mut out = String::new();
        append_digit(&mut out, n as u8);
        proof {
            assert(out@ =~= dec_render(n as nat));
        }
        out
    } else {
        let mut r = u128_to_dec(n / 10);
        append_digit(&mut r, (n % 10) as u8);
        r
    }
}

proof fn lemma_trim_left_at(s: Seq<char>, ht: bool, a: int)
    requires
        0 <= a <= s.len(),
        forall|i: int| 0 <= i < a ==> is_trim_char(#[trigger] s[i], ht),
        a == s.len() || !is_trim_char(s[a], ht),
    ensures
        trim_left(s, ht) == s.subrange(a, s.len() as int),
    decreases a,
{
    if a == 0 {
        assert(trim_left(s, ht) =~= s.subrange(0, s.len() as int));
    } else {
        assert(is_trim_char(s[0], ht));
        let t = s.drop_first();
        assert(forall|i: int| 0 <= i < a - 1 ==> is_trim_char(#[trigger] t[i], ht));
        lemma_trim_left_at(t, ht, a - 1);
        assert(t.subrange(a - 1, t.len() as int) =~= s.subrange(a, s.len() as int));
    }
}

proof fn lemma_trim_right_at(s: Seq<char>, ht: bool, b: int)
    requires
        0 <= b <= s.len(),
        forall|i: int| b <= i < s.len() ==> is_trim_char(#[trigger] s[i], ht),
        b == 0 || !is_trim_char(s[b - 1], ht),
    ensures
        trim_right(s, ht) == s.subrange(0, b),
    decreases s.len() - b,
{
    if b == s.len() {
        if s.len() > 0 && is_trim_char(s.last(), ht) {
            assert(!is_trim_char(s[b - 1], ht));
            assert(false);
        }
        assert(trim_right(s, ht) =~= s.subrange(0, b));
    } else {
        assert(is_trim_char(s.last(), ht));
        let t = s.drop_last();
        lemma_trim_right_at(t, ht, b);
        assert(t.subrange(0, b) =~= s.subrange(0, b));
    }
}

/// Returns the given text without leading or trailing trim characters.
pub fn trim_str(s: &str, ht: bool) -> (r: String)
    ensures
        r@ == trimmed(s@, ht),
{
    let n = s.unicode_len();
    let mut a: usize = 0;
    while a < n && is_trim_exec(s.get_char(a), ht)
        invariant
            a <= n,
            n == s@.len(),
            forall|i: int| 0 <= i < a ==> is_trim_char(#[trigger] s@[i], ht),
        decreases n - a,
    {
        a = a + 1;
    }
    proof {
        lemma_trim_left_at(s@, ht, a as int);
    }
    if a == n {
        proof {
            assert(trim_left(s@, ht) =~= Seq::<char>::empty());
            assert(trim_right(Seq::<char>::empty(), ht) =~= Seq::<char>::empty());
        }
        return String::new();
    }
    let mut b: usize = n;
    while b > a && is_trim_exec(s.get_char(b - 1), ht)
        invariant
            a <= b <= n,
            n == s@.len(),
            a < n,
            !is_trim_char(s@[a as int], ht),
            forall|i: int| b <= i < n ==> is_trim_char(#[trigger] s@[i], ht),
        decreases b,
    {
        b = b - 1;
    }
    let r = s.substring_char(a, b);
    proof {
        let t = s@.subrange(a as int, n as int);
        assert(forall|i: int| b - a <= i < t.len() ==> is_trim_char(#[trigger] t[i], ht));
        assert(t[b - a - 1] == s@[b as int - 1]);
        lemma_trim_right_at(t, ht, b as int - a as int);
        assert(t.subrange(0, b - a) =~= s@.subrange(a as int, b as int));
    }
    String::from_str(r)
}

/// Tells whether one character is removed by a trim of the given style.
pub fn is_trim_exec(c: char, ht: bool) -> (r: bool)
    ensures
        r == is_trim_char(c, ht),
{
    if ht {
        c == ' ' || c == '\t'
    } else {
        let u = c as u32;
        c == ' ' || c == '\t' || c == '\n' || c == '\u{000B}' || c == '\u{000C}' || c == '\r'
            || c == '\u{0085}' || c == '\u{00A0}' || c == '\u{1680}'
            || (0x2000 <= u && u <= 0x200A) || c == '\u{2028}' || c == '\u{2029}'
            || c == '\u{202F}' || c == '\u{205F}' || c == '\u{3000}'
    }
}

proof fn lemma_dec_value_prefix_le(s: Seq<char>, i: int)
    requires
        0 <= i <= s.len(),
    ensures
        dec_value(s.subrange(0, i)) <= dec_value(s),
    decreases s.len() - i,
{
    if i == s.len() {
        assert(s.subrange(0, i) =~= s);
    } else {
        let p = s.subrange(0, i);
        let q = s.subrange(0, i + 1);
        assert(q.drop_last() =~= p);
        assert(dec_value(q) == dec_value(p) * 10 + digit_val(q.last()));
        lemma_dec_value_prefix_le(s, i + 1);
    }
}

proof fn lemma_hex_value_prefix_le(s: Seq<char>, i: int)
    requires
        0 <= i <= s.len(),
    ensures
        hex_value(s.subrange(0, i)) <= hex_value(s),
    decreases s.len() - i,
{
    if i == s.len() {
        assert(s.subrange(0, i) =~= s);
    } else {
        let p = s.subrange(0, i);
        let q = s.subrange(0, i + 1);
        assert(q.drop_last() =~= p);
        assert(hex_value(q) == hex_value(p) * 16 + hex_val(q.last()));
        lemma_hex_value_prefix_le(s, i + 1);
    }
}

/// A string of decimal digits denoting a value that fits in 32 bits.
pub open spec fn dec_u32_ok(s: Seq<char>) -> bool {
    s.len() > 0 && all_digits(s) && dec_value(s) <= u32::MAX as nat
}

/// Parses decimal digits as a 32-bit value; anything else is refused.
pub fn parse_u32_dec(s: &str) -> (r: Option<u32>)
    ensures
        r is Some <==> dec_u32_ok(s@),
        r is Some ==> r->0 as nat == dec_value(s@),
{
    let n = s.unicode_len();
    if n == 0 {
        return None;
    }
    let mut acc: u64 = 0;
    let mut i: usize = 0;
    while i < n
        invariant
            i <= n,
            n == s@.len(),
            all_digits(s@.subrange(0, i as int)),
            acc as nat == dec_value(s@.subrange(0, i as int)),
            acc <= u32::MAX as u64,
        decreases n - i,
    {
        let c = s.get_char(i);
        let u = c as u32;
        if u < 48 || u > 57 {
            return None;
        }
        let d = (u - 48) as u64;
        let next: u64 = acc * 10 + d;
        proof {
            assert(s@.subrange(0, i + 1).drop_last() =~= s@.subrange(0, i as int));
            assert(all_digits(s@.subrange(0, i + 1)));
        }
        if next > 0xFFFF_FFFF {
            proof {
                lemma_dec_value_prefix_le(s@, i + 1);
            }
            return None;
        }
        acc = next;
        i = i + 1;
    }
    proof {
        assert(s@.subrange(0, n as int) =~= s@);
    }
    Some(acc as u32)
}

/// A string of hexadecimal digits denoting a value that fits in 32 bits.
pub open spec fn hex_u32_ok(s: Seq<char>) -> bool {
    s.len() > 0 && all_hex_digits(s) && hex_value(s) <= u32::MAX as nat
}

/// Parses hexadecimal digits as a 32-bit value; anything else is refused.
pub fn parse_u32_hex(s: &str) -> (r: Option<u32>)
    ensures
        r is Some <==> hex_u32_ok(s@),
        r is Some ==> r->0 as nat == hex_value(s@),
{
    let n = s.unicode_len();
    if n == 0 {
        return None;
    }
    let mut acc: u64 = 0;
    let mut i: usize = 0;
    while i < n
        invariant
            i <= n,
            n == s@.len(),
            all_hex_digits(s@.subrange(0, i as int)),
            acc as nat == hex_value(s@.subrange(0, i as int)),
            acc <= u32::MAX as u64,
        decreases n - i,
    {
        let c = s.get_char(i);
        let u = c as u32;
        let d: u64 = if 48 <= u && u <= 57 {
            (u - 48) as u64
        } else if 97 <= u && u <= 102 {
            (u - 87) as u64
        } else if 65 <= u && u <= 70 {
            (u - 55) as u64
        } else {
            return None;
        };
        let next: u64 = acc * 16 + d;
        proof {
            assert(s@.subrange(0, i + 1).drop_last() =~= s@.subrange(0, i as int));
            assert(all_hex_digits(s@.subrange(0, i + 1)));
        }
        if next > 0xFFFF_FFFF {
            proof {
                lemma_hex_value_prefix_le(s@, i + 1);
            }
            return None;
        }
        acc = next;
        i = i + 1;
    }
    proof {
        assert(s@.subrange(0, n as int) =~= s@);
    }
    Some(acc as u32)
}

/// Text accepted by the decimal reading of a 64-bit unsigned number:
/// an optional leading plus sign, then digits, within range.
pub open spec fn dec_u64_ok(s: Seq<char>) -> bool {
    if s.len() > 0 && s[0] == '+' {
        s.len() > 1 && all_digits(s.drop_first()) && dec_value(s.drop_first()) <= u64::MAX as nat
    } else {
        s.len() > 0 && all_digits(s) && dec_value(s) <= u64::MAX as nat
    }
}

/// The value such text denotes.
pub open spec fn dec_u64_value(s: Seq<char>) -> nat {
    if s.len() > 0 && s[0] == '+' {
        dec_value(s.drop_first())
    } else {
        dec_value(s)
    }
}

/// Parses a decimal 64-bit number as Rust's string parsing does,
/// allowing one leading plus sign.
pub fn parse_u64_dec(s: &str) -> (r: Option<u64>)
    ensures
        r is Some <==> dec_u64_ok(s@),
        r is Some ==> r->0 as nat == dec_u64_value(s@),
{
    let n = s.unicode_len();
    if n == 0 {
        return None;
    }
    let start: usize = if s.get_char(0) == '+' {
        1
    } else {
        0
    };
    let ghost t = if s@[0] == '+' { s@.drop_first() } else { s@ };
    proof {
        assert(forall|j: int| 0 <= j < t.len() ==> t[j] == s@[j + start]);
    }
    if start == n {
        return None;
    }
    let mut acc: u64 = 0;
    let mut i: usize = start;
    while i < n
        invariant
            start <= i <= n,
            n == s@.len(),
            start == 1 ==> s@[0] == '+',
            start == 0 ==> s@[0] != '+' || n == 0,
            t == if s@[0] == '+' { s@.drop_first() } else { s@ },
            t.len() == n - start,
            forall|j: int| 0 <= j < t.len() ==> t[j] == s@[j + start],
            all_digits(t.subrange(0, i - start)),
            acc as nat == dec_value(t.subrange(0, i - start)),
        decreases n - i,
    {
        let c = s.get_char(i);
        let u = c as u32;
        if u < 48 || u > 57 {
            proof {
                assert(t[i - start] == s@[i as int]);
                assert(!is_digit(t[i - start]));
                assert(!all_digits(t));
            }
            return None;
        }
        let d = (u - 48) as u64;
        proof {
            assert(t.subrange(0, i - start + 1).drop_last() =~= t.subrange(0, i - start));
            assert(t[i - start] == s@[i as int]);
            assert(all_digits(t.subrange(0, i - start + 1)));
        }
        if acc > (0xFFFF_FFFF_FFFF_FFFF - d) / 10 {
            proof {
                assert(acc as nat * 10 + d as nat > u64::MAX as nat) by (nonlinear_arith)
                    requires
                        acc > (0xFFFF_FFFF_FFFF_FFFF - d) / 10,
                        d <= 9,
                        acc <= u64::MAX,
                {}
                assert(dec_value(t.subrange(0, i - start + 1)) > u64::MAX as nat);
                lemma_dec_value_prefix_le(t, i - start + 1);
                assert(dec_value(t) > u64::MAX as nat);
                assert(!dec_u64_ok(s@));
            }
            return None;
        }
        acc = acc * 10 + d;
        i = i + 1;
    }
    proof {
        assert(t.subrange(0, n - start) =~= t);
    }
    Some(acc)
}

/// True where the text "{n}" stands at position `i`.
pub open spec fn brace_at(s: Seq<char>, i: int) -> bool {
    0 <= i && i + 3 <= s.len() && s[i] == '{' && s[i + 1] == 'n' && s[i + 2] == '}'
}

/// Position of the first "{n}" at or after `i`, or -1.
pub open spec fn first_brace_from(s: Seq<char>, i: int) -> int
    decreases s.len() - i,
{
    if i < 0 || i + 3 > s.len() {
        -1
    } else if brace_at(s, i) {
        i
    } else {
        first_brace_from(s, i + 1)
    }
}

/// True of a register name that names an expandable family.
pub open spec fn has_brace(s: Seq<char>) -> bool {
    first_brace_from(s, 0) >= 0
}

/// The name with its first "{n}" and everything after it removed;
/// a name without "{n}" stands as it is.
pub open spec fn base_reg_spec(s: Seq<char>) -> Seq<char> {
    if has_brace(s) {
        s.subrange(0, first_brace_from(s, 0))
    } else {
        s
    }
}

/// Finds the first occurrence of "{n}".
pub fn find_brace(s: &str) -> (r: Option<usize>)
    ensures
        match r {
            Some(i) => first_brace_from(s@, 0) == i as int && i + 3 <= s@.len(),
            None => first_brace_from(s@, 0) == -1,
        },
{
    let n = s.unicode_len();
    let mut i: usize = 0;
    while n >= 3 && i <= n - 3
        invariant
            n == s@.len(),
            i <= n,
            first_brace_from(s@, 0) == first_brace_from(s@, i as int),
        decreases n - i,
    {
        if s.get_char(i) == '{' && s.get_char(i + 1) == 'n' && s.get_char(i + 2) == '}' {
            return Some(i);
        }
        i = i + 1;
    }
    None
}

/// The register name with any "{n}" suffix stripped.
pub fn base_reg_of(s: &str) -> (r: String)
    ensures
        r@ == base_reg_spec(s@),
{
    match find_brace(s) {
        Some(i) => String::from_str(s.substring_char(0, i)),
        None => String::from_str(s),
    }
}

/// Position of the first character at or after `i` that is not blank space.
pub open spec fn skip_spaces_from(s: Seq<char>, i: int) -> int
    decreases s.len() - i,
{
    if 0 <= i < s.len() && is_space_char(s[i]) {
        skip_spaces_from(s, i + 1)
    } else {
        i
    }
}

/// Position of the first ')' at or after `i`, or -1.
pub open spec fn first_cparen_from(s: Seq<char>, i: int) -> int
    decreases s.len() - i,
{
    if i < 0 || i >= s.len() {
        -1
    } else if s[i] == ')' {
        i
    } else {
        first_cparen_from(s, i + 1)
    }
}

/// The six characters of the text "range(".
pub open spec fn range_lit() -> Seq<char> {
    seq!['r', 'a', 'n', 'g', 'e', '(']
}

/// Bounds of the text captured by the series pattern when it matches at
/// position `i`: the letter 'n', optional space, '=', optional space,
/// "range(", then at least one character up to the next ')'.
pub open spec fn range_bounds_at(s: Seq<char>, i: int) -> Option<(int, int)> {
    if 0 <= i < s.len() && s[i] == 'n' {
        let a = skip_spaces_from(s, i + 1);
        if a < s.len() && s[a] == '=' {
            let b = skip_spaces_from(s, a + 1);
            if b + 6 <= s.len() && s.subrange(b, b + 6) == range_lit() {
                let e = first_cparen_from(s, b + 6);
                if e > b + 6 {
                    Some((b + 6, e))
                } else {
                    None
                }
            } else {
                None
            }
        } else {
            None
        }
    } else {
        None
    }
}

/// Position of the first match of the series pattern at or after `i`, or -1.
pub open spec fn first_range_from(s: Seq<char>, i: int) -> int
    decreases s.len() - i,
{
    if i < 0 || i >= s.len() {
        -1
    } else if range_bounds_at(s, i) is Some {
        i
    } else {
        first_range_from(s, i + 1)
    }
}

/// The text captured by the first match of the series pattern, if any.
pub open spec fn range_capture(s: Seq<char>) -> Option<Seq<char>> {
    let i = first_range_from(s, 0);
    if i >= 0 {
        let (a, b) = range_bounds_at(s, i)->0;
        Some(s.subrange(a, b))
    } else {
        None
    }
}

/// Finds the first character at or after `i` that is not blank space.
fn skip_spaces(s: &str, i: usize) -> (r: usize)
    requires
        i <= s@.len(),
    ensures
        r as int == skip_spaces_from(s@, i as int),
        i <= r <= s@.len(),
{
    let n = s.unicode_len();
    let mut j: usize = i;
    while j < n && is_trim_exec(s.get_char(j), false)
        invariant
            i <= j <= n,
            n == s@.len(),
            skip_spaces_from(s@, i as int) == skip_spaces_from(s@, j as int),
        decreases n - j,
    {
        j = j + 1;
    }
    j
}

/// Finds the first ')' at or after `i`.
fn find_cparen(s: &str, i: usize) -> (r: Option<usize>)
    requires
        i <= s@.len(),
    ensures
        match r {
            Some(j) => first_cparen_from(s@, i as int) == j as int && i <= j < s@.len(),
            None => first_cparen_from(s@, i as int) == -1,
        },
{
    let n = s.unicode_len();
    let mut j: usize = i;
    while j < n
        invariant
            i <= j <= n,
            n == s@.len(),
            first_cparen_from(s@, i as int) == first_cparen_from(s@, j as int),
        decreases n - j,
    {
        if s.get_char(j) == ')' {
            return Some(j);
        }
        j = j + 1;
    }
    None
}

/// Decides the series pattern at one position and hands back the capture bounds.
fn range_bounds_at_exec(s: &str, i: usize) -> (r: Option<(usize, usize)>)
    requires
        i < s@.len(),
    ensures
        match r {
            Some((a, b)) => range_bounds_at(s@, i as int) == Some((a as int, b as int))
                && i < a <= b <= s@.len(),
            None => range_bounds_at(s@, i as int) is None,
        },
{
    let n = s.unicode_len();
    if s.get_char(i) != 'n' {
        return None;
    }
    let a = skip_spaces(s, i + 1);
    if a >= n || s.get_char(a) != '=' {
        return None;
    }
    let b = skip_spaces(s, a + 1);
    if n < 6 || b > n - 6 {
        return None;
    }
    if !(s.get_char(b) == 'r' && s.get_char(b + 1) == 'a' && s.get_char(b + 2) == 'n'
        && s.get_char(b + 3) == 'g' && s.get_char(b + 4) == 'e' && s.get_char(b + 5) == '(') {
        proof {
            assert(s@.subrange(b as int, b + 6) != range_lit());
        }
        return None;
    }
    proof {
        assert(s@.subrange(b as int, b + 6) =~= range_lit());
    }
    match find_cparen(s, b + 6) {
        Some(e) => {
            if e > b + 6 {
                Some((b + 6, e))
            } else {
                None
            }
        },
        None => None,
    }
}

/// The text captured by the first match of the series pattern, if any.
pub fn range_capture_of(s: &str) -> (r: Option<String>)
    ensures
        match r {
            Some(t) => range_capture(s@) == Some(t@),
            None => range_capture(s@) is None,
        },
{
    let n = s.unicode_len();
    let mut i: usize = 0;
    while i < n
        invariant
            i <= n,
            n == s@.len(),
            first_range_from(s@, 0) == first_range_from(s@, i as int),
        decreases n - i,
    {
        match range_bounds_at_exec(s, i) {
            Some((a, b)) => {
                return Some(String::from_str(s.substring_char(a, b)));
            },
            None => {},
        }
        i = i + 1;
    }
    None
}

/// Position one past the last of an unbroken run of hex digits from `i`.
pub open spec fn hex_run_end(s: Seq<char>, i: int) -> int
    decreases s.len() - i,
{
    if 0 <= i < s.len() && is_hex_digit(s[i]) {
        hex_run_end(s, i + 1)
    } else {
        i
    }
}

/// True where "0x" followed by a hex digit stands at position `i`.
pub open spec fn hex_addr_at(s: Seq<char>, i: int) -> bool {
    0 <= i && i + 3 <= s.len() && s[i] == '0' && s[i + 1] == 'x' && is_hex_digit(s[i + 2])
}

/// Position of the first hex-address match at or after `i`, or -1.
pub open spec fn first_hex_addr_from(s: Seq<char>, i: int) -> int
    decreases s.len() - i,
{
    if i < 0 || i + 3 > s.len() {
        -1
    } else if hex_addr_at(s, i) {
        i
    } else {
        first_hex_addr_from(s, i + 1)
    }
}

/// The run of hex digits after the first "0x", if any.
pub open spec fn hex_addr_capture(s: Seq<char>) -> Option<Seq<char>> {
    let i = first_hex_addr_from(s, 0);
    if i >= 0 {
        Some(s.subrange(i + 2, hex_run_end(s, i + 2)))
    } else {
        None
    }
}

/// Extracts the digits after the first "0x" of an address cell.
pub fn hex_addr_capture_of(s: &str) -> (r: Option<String>)
    ensures
        match r {
            Some(t) => hex_addr_capture(s@) == Some(t@)
                && t@.len() > 0 && all_hex_digits(t@),
            None => hex_addr_capture(s@) is None,
        },
{
    let n = s.unicode_len();
    let mut i: usize = 0;
    while n >= 3 && i <= n - 3
        invariant
            i <= n,
            n == s@.len(),
            first_hex_addr_from(s@, 0) == first_hex_addr_from(s@, i as int),
        decreases n - i,
    {
        let c2 = s.get_char(i + 2);
        let u2 = c2 as u32;
        let hex2 = (48 <= u2 && u2 <= 57) || (97 <= u2 && u2 <= 102) || (65 <= u2 && u2 <= 70);
        if s.get_char(i) == '0' && s.get_char(i + 1) == 'x' && hex2 {
            let mut j: usize = i + 2;
            while j < n && is_hex_digit_exec(s.get_char(j))
                invariant
                    i + 2 <= j <= n,
                    n == s@.len(),
                    hex_run_end(s@, i + 2) == hex_run_end(s@, j as int),
                    forall|k: int| i + 2 <= k < j ==> is_hex_digit(#[trigger] s@[k]),
                decreases n - j,
            {
                j = j + 1;
            }
            let t = s.substring_char(i + 2, j);
            proof {
                assert(forall|k: int| 0 <= k < t@.len() ==> is_hex_digit(#[trigger] t@[k]));
            }
            return Some(String::from_str(t));
        }
        i = i + 1;
    }
    None
}

/// Tells whether one character is a hexadecimal digit.
pub fn is_hex_digit_exec(c: char) -> (r: bool)
    ensures
        r == is_hex_digit(c),
{
    let u = c as u32;
    (48 <= u && u <= 57) || (97 <= u && u <= 102) || (65 <= u && u <= 70)
}

/// Tells whether one character is a decimal digit.
pub fn is_digit_exec(c: char) -> (r: bool)
    ensures
        r == is_digit(c),
{
    let u = c as u32;
    48 <= u && u <= 57
}

/// Position one past the last of an unbroken run of decimal digits from `i`.
pub open spec fn digit_run_end(s: Seq<char>, i: int) -> int
    decreases s.len() - i,
{
    if 0 <= i < s.len() && is_digit(s[i]) {
        digit_run_end(s, i + 1)
    } else {
        i
    }
}

/// Position of the first decimal digit at or after `i`, or -1.
pub open spec fn first_digit_from(s: Seq<char>, i: int) -> int
    decreases s.len() - i,
{
    if i < 0 || i >= s.len() {
        -1
    } else if is_digit(s[i]) {
        i
    } else {
        first_digit_from(s, i + 1)
    }
}

/// The low bit of a bit-position cell: the digits after the colon of a
/// "hi:lo" pair, or the first run of digits where no such pair stands.
pub open spec fn bit_capture(s: Seq<char>) -> Option<Seq<char>> {
    let p = first_digit_from(s, 0);
    if p >= 0 {
        let q = digit_run_end(s, p);
        if q < s.len() && s[q] == ':' && q + 1 < s.len() && is_digit(s[q + 1]) {
            Some(s.subrange(q + 1, digit_run_end(s, q + 1)))
        } else {
            Some(s.subrange(p, q))
        }
    } else {
        None
    }
}

/// Finds the end of the run of decimal digits that starts at `i`.
fn digit_run_end_exec(s: &str, i: usize) -> (r: usize)
    requires
        i <= s@.len(),
    ensures
        r as int == digit_run_end(s@, i as int),
        i <= r <= s@.len(),
{
    let n = s.unicode_len();
    let mut j: usize = i;
    while j < n && is_digit_exec(s.get_char(j))
        invariant
            i <= j <= n,
            n == s@.len(),
            digit_run_end(s@, i as int) == digit_run_end(s@, j as int),
        decreases n - j,
    {
        j = j + 1;
    }
    j
}

/// Extracts the low bit index from a bit-position cell.
pub fn bit_capture_of(s: &str) -> (r: Option<String>)
    ensures
        match r {
            Some(t) => bit_capture(s@) == Some(t@),
            None => bit_capture(s@) is None,
        },
{
    let n = s.unicode_len();
    let mut i: usize = 0;
    while i < n
        invariant
            i <= n,
            n == s@.len(),
            first_digit_from(s@, 0) == first_digit_from(s@, i as int),
        decreases n - i,
    {
        if is_digit_exec(s.get_char(i)) {
            let q = digit_run_end_exec(s, i);
            if q < n && s.get_char(q) == ':' && q + 1 < n && is_digit_exec(s.get_char(q + 1)) {
                let e = digit_run_end_exec(s, q + 1);
                return Some(String::from_str(s.substring_char(q + 1, e)));
            }
            return Some(String::from_str(s.substring_char(i, q)));
        }
        i = i + 1;
    }
    None
}

/// Text accepted by the decimal reading of a 32-bit unsigned number:
/// an optional leading plus sign, then digits, within range.
pub open spec fn dec_u32_plus_ok(s: Seq<char>) -> bool {
    if s.len() > 0 && s[0] == '+' {
        s.len() > 1 && all_digits(s.drop_first()) && dec_value(s.drop_first()) <= u32::MAX as nat
    } else {
        dec_u32_ok(s)
    }
}

/// The value such text denotes.
pub open spec fn dec_u32_plus_value(s: Seq<char>) -> nat {
    if s.len() > 0 && s[0] == '+' {
        dec_value(s.drop_first())
    } else {
        dec_value(s)
    }
}

/// Parses a decimal 32-bit number as Rust's string parsing does,
/// allowing one leading plus sign.
pub fn parse_u32_plus(s: &str) -> (r: Option<u32>)
    ensures
        r is Some <==> dec_u32_plus_ok(s@),
        r is Some ==> r->0 as nat == dec_u32_plus_value(s@),
{
    let n = s.unicode_len();
    if n == 0 {
        return None;
    }
    if s.get_char(0) == '+' {
        let rest = s.substring_char(1, n);
        proof {
            assert(rest@ =~= s@.drop_first());
        }
        match parse_u32_dec(rest) {
            Some(v) => Some(v),
            None => None,
        }
    } else {
        parse_u32_dec(s)
    }
}

/// Renders a number as upper-case hexadecimal text, without a prefix.
pub fn u128_to_hex(n: u128) -> (r: String)
    ensures
        r@ == hex_render(n as nat),
    decreases n,
{
    if n < 16 {
        let mut out = String::new();
        append_digit(&mut out, n as u8);
        proof {
            assert(out@ =~= hex_render(n as nat));
        }
        out
    } else {
        let mut r = u128_to_hex(n / 16);
        append_digit(&mut r, (n % 16) as u8);
        r
    }
}

/// Position of the first ',' at or after `i`, or -1.
pub open spec fn first_comma_from(s: Seq<char>, i: int) -> int
    decreases s.len() - i,
{
    if i < 0 || i >= s.len() {
        -1
    } else if s[i] == ',' {
        i
    } else {
        first_comma_from(s, i + 1)
    }
}

/// The series arguments read from the captured text: pieces split on
/// commas, stripped of spaces and tabs, each a decimal number that fits
/// in 32 bits; any other shape yields nothing.
pub open spec fn parse_args(s: Seq<char>) -> Option<Seq<u32>>
    decreases s.len(),
{
    let k = first_comma_from(s, 0);
    if k < 0 || k >= s.len() {
        let t = trimmed(s, true);
        if dec_u32_ok(t) {
            Some(seq![dec_value(t) as u32])
        } else {
            None
        }
    } else {
        let t = trimmed(s.subrange(0, k), true);
        let rest = parse_args(s.subrange(k + 1, s.len() as int));
        if dec_u32_ok(t) && rest is Some {
            Some(seq![dec_value(t) as u32] + rest->0)
        } else {
            None
        }
    }
}

/// Finds the first ',' of the text.
fn find_comma(s: &str) -> (r: Option<usize>)
    ensures
        match r {
            Some(k) => first_comma_from(s@, 0) == k as int && k < s@.len(),
            None => first_comma_from(s@, 0) == -1,
        },
{
    let n = s.unicode_len();
    let mut j: usize = 0;
    while j < n
        invariant
            j <= n,
            n == s@.len(),
            first_comma_from(s@, 0) == first_comma_from(s@, j as int),
        decreases n - j,
    {
        if s.get_char(j) == ',' {
            return Some(j);
        }
        j = j + 1;
    }
    None
}

/// Reads the series arguments out of captured text.
pub fn parse_args_str(s: &str) -> (r: Option<Vec<u32>>)
    ensures
        match r {
            Some(v) => parse_args(s@) == Some(v@),
            None => parse_args(s@) is None,
        },
    decreases s@.len(),
{
    let n = s.unicode_len();
    match find_comma(s) {
        None => {
            let t = trim_str(s, true);
            match parse_u32_dec(t.as_str()) {
                Some(v) => {
                    let out = vec![v];
                    proof {
                        assert(out@ =~= seq![v]);
                    }
                    Some(out)
                },
                None => None,
            }
        },
        Some(k) => {
            let head = s.substring_char(0, k);
            let t = trim_str(head, true);
            let head_val = parse_u32_dec(t.as_str());
            let rest = s.substring_char(k + 1, n);
            match (head_val, parse_args_str(rest)) {
                (Some(v), Some(mut vs)) => {
                    vs.insert(0, v);
                    proof {
                        assert(vs@ =~= seq![v] + parse_args(rest@)->0);
                    }
                    Some(vs)
                },
                _ => None,
            }
        },
    }
}

/// Compares two strings character by character.
pub fn str_eq_exec(x: &str, y: &str) -> (r: bool)
    ensures
        r == (x@ == y@),
{
    let n = x.unicode_len();
    if n != y.unicode_len() {
        return false;
    }
    let mut i: usize = 0;
    while i < n
        invariant
            i <= n,
            n == x@.len(),
            n == y@.len(),
            forall|j: int| 0 <= j < i ==> x@[j] == y@[j],
        decreases n - i,
    {
        if x.get_char(i) != y.get_char(i) {
            return false;
        }
        i = i + 1;
    }
    proof {
        assert(x@ =~= y@);
    }
    true
}

/// True of two characters equal up to ASCII letter case.
pub open spec fn chars_ieq(a: char, b: char) -> bool {
    a as u32 == b as u32
    || (65 <= a as u32 && a as u32 <= 90 && b as u32 == a as u32 + 32)
    || (65 <= b as u32 && b as u32 <= 90 && a as u32 == b as u32 + 32)
}

/// True of two strings equal up to ASCII letter case.
pub open spec fn str_ieq(x: Seq<char>, y: Seq<char>) -> bool {
    x.len() == y.len() && forall|i: int| 0 <= i < x.len() ==> chars_ieq(#[trigger] x[i], y[i])
}

/// Compares two strings up to ASCII letter case.
pub fn str_ieq_exec(x: &str, y: &str) -> (r: bool)
    ensures
        r == str_ieq(x@, y@),
{
    let n = x.unicode_len();
    if n != y.unicode_len() {
        return false;
    }
    let mut i: usize = 0;
    while i < n
        invariant
            i <= n,
            n == x@.len(),
            n == y@.len(),
            forall|j: int| 0 <= j < i ==> chars_ieq(#[trigger] x@[j], y@[j]),
        decreases n - i,
    {
        let a = x.get_char(i) as u32;
        let b = y.get_char(i) as u32;
        let ok = a == b
            || (65 <= a && a <= 90 && b == a + 32)
            || (65 <= b && b <= 90 && a == b + 32);
        if !ok {
            return false;
        }
        i = i + 1;
    }
    true
}

} // verus!
