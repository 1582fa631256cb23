//! Java escape sequences in string and char literals.

use vstd::prelude::*;

verus! {

/// Relies on `String::push`: appends `c` to `s`.
#[verifier::external_body]
pub(crate) fn push_char(s: &mut String, c: char)
    ensures
        final(s)@ == old(s)@.push(c),
{
    s.push(c)
}

pub open spec fn is_octal_digit(c: char) -> bool {
    '0' <= c && c <= '7'
}

/// What the named escape `\c` stands for, if `c` names one.
pub open spec fn named_escape(c: char) -> Option<char> {
    if c == 'b' {
        Some('\x08')
    } else if c == 't' {
        Some('\t')
    } else if c == 'n' {
        Some('\n')
    } else if c == 'f' {
        Some('\x0c')
    } else if c == 'r' {
        Some('\r')
    } else if c == '"' {
        Some('"')
    } else if c == '\'' {
        Some('\'')
    } else if c == '\\' {
        Some('\\')
    } else {
        None
    }
}

/// How many octal digits `s` starts with, counting no further than `max`.
pub open spec fn octal_run(s: Seq<char>, max: nat) -> nat
    decreases max,
{
    if max == 0 || s.len() == 0 || !is_octal_digit(s[0]) {
        0
    } else {
        1 + octal_run(s.drop_first(), (max - 1) as nat)
    }
}

/// The value of a string of octal digits.
pub open spec fn octal_value(s: Seq<char>) -> nat
    decreases s.len(),
{
    if s.len() == 0 {
        0
    } else {
        octal_value(s.drop_last()) * 8 + (s.last() as nat - '0' as nat) as nat
    }
}

/// `Some(p + r)` where `o` is `Some(r)`.
pub open spec fn prepend(p: Seq<char>, o: Option<Seq<char>>) -> Option<Seq<char>> {
    match o {
        Some(r) => Some(p + r),
        None => None,
    }
}

/// The escape sequence at the start of `t`, the text just after a backslash: the character it
/// stands for and how many characters of `t` it takes. `None` where it is empty, unknown, or out
/// of range. An octal escape has one to four digits, four only when the first is at most `3`,
/// and must be below 128.
pub open spec fn escape_at(t: Seq<char>) -> Option<(char, nat)> {
    if t.len() == 0 {
        None
    } else if named_escape(t[0]) is Some {
        Some((named_escape(t[0])->0, 1nat))
    } else {
        let k = octal_run(t, 4);
        if k == 0 || k > t.len() || (k == 4 && t[0] > '3') {
            None
        } else {
            let v = octal_value(t.subrange(0, k as int));
            if v >= 128 {
                None
            } else {
                Some(((v as u8) as char, k))
            }
        }
    }
}

/// The text that the body of a literal stands for, with escapes resolved; `None` where an
/// escape is malformed.
pub open spec fn unescape(s: Seq<char>) -> Option<Seq<char>>
    decreases s.len(),
{
    if s.len() == 0 {
        Some(Seq::empty())
    } else if s[0] != '\\' {
        prepend(seq![s[0]], unescape(s.drop_first()))
    } else {
        match escape_at(s.drop_first()) {
            None => None,
            Some((c, k)) => if 1 <= k && 1 + k <= s.len() {
                prepend(seq![c], unescape(s.subrange(1 + k as int, s.len() as int)))
            } else {
                None
            },
        }
    }
}

proof fn lemma_octal_run_bounds(s: Seq<char>, max: nat)
    ensures
        octal_run(s, max) <= max,
        octal_run(s, max) <= s.len(),
        forall|i: int| 0 <= i < octal_run(s, max) ==> is_octal_digit(#[trigger] s[i]),
        octal_run(s, max) < max && octal_run(s, max) < s.len() ==> !is_octal_digit(s[octal_run(s, max) as int]),
    decreases max,
{
    if !(max == 0 || s.len() == 0 || !is_octal_digit(s[0])) {
        lemma_octal_run_bounds(s.drop_first(), (max - 1) as nat);
        assert forall|i: int| 0 <= i < octal_run(s, max) implies is_octal_digit(#[trigger] s[i]) by {
            if i > 0 {
                assert(s[i] == s.drop_first()[i - 1]);
            }
        }
    }
}

/// Resolve every escape sequence of `literal`, the text between the quotes of a literal.
pub fn resolve_escape_seqs(literal: &str) -> (r: Option<String>)
    requires
        literal.is_ascii(),
    ensures
        match r {
            Some(t) => unescape(literal@) == Some(t@),
            None => unescape(literal@) is None,
        },
{
    let n = literal.unicode_len();
    let mut buf = String::new();
    let mut i: usize = 0;
    proof {
        assert(literal@.subrange(0, n as int) =~= literal@);
        match unescape(literal@) {
            Some(t) => {
                assert(buf@ + t =~= t);
            },
            None => {},
        }
    }
    while i < n
        invariant
            literal.is_ascii(),
            n == literal@.len(),
            i <= n,
            unescape(literal@) == prepend(buf@, unescape(literal@.subrange(i as int, n as int))),
        decreases n - i,
    {
        let ghost rest = literal@.subrange(i as int, n as int);
        let c = literal.get_ascii(i) as char;
        proof {
            assert(c == literal@[i as int]);
        }
        if c != '\\' {
            proof {
                assert(rest.drop_first() =~= literal@.subrange(i + 1, n as int));
                assert(buf@.push(c) =~= buf@ + seq![c]);
                match unescape(rest.drop_first()) {
                    Some(t) => {
                        assert(buf@ + (seq![c] + t) =~= buf@.push(c) + t);
                    },
                    None => {},
                }
            }
            push_char(&mut buf, c);
            i += 1;
        } else {
            match resolve_once(literal, i + 1) {
                None => {
                    proof {
                        assert(rest.drop_first() =~= literal@.subrange(i + 1, n as int));
                    }
                    return None;
                },
                Some((e, next)) => {
                    proof {
                        assert(rest.drop_first() =~= literal@.subrange(i + 1, n as int));
                        assert(rest.subrange((next - i) as int, rest.len() as int) =~= literal@.subrange(next as int, n as int));
                        match unescape(literal@.subrange(next as int, n as int)) {
                            Some(t) => {
                                assert(buf@ + (seq![e] + t) =~= buf@.push(e) + t);
                            },
                            None => {},
                        }
                    }
                    push_char(&mut buf, e);
                    i = next;
                },
            }
        }
    }
    proof {
        assert(literal@.subrange(n as int, n as int) =~= Seq::<char>::empty());
        assert(buf@ + Seq::<char>::empty() =~= buf@);
    }
    Some(buf)
}

/// Resolve the escape sequence that begins at `start`, just after its backslash. Returns what
/// it stands for and where the text after it begins.
fn resolve_once(input: &str, start: usize) -> (r: Option<(char, usize)>)
    requires
        input.is_ascii(),
        start <= input@.len(),
    ensures
        match escape_at(input@.subrange(start as int, input@.len() as int)) {
            None => r is None,
            Some((c, k)) => r == Some((c, (start + k) as usize)) && 1 <= k && start + k <= input@.len(),
        },
{
    let n = input.unicode_len();
    let ghost t = input@.subrange(start as int, n as int);
    if start == n {
        return None;
    }
    let c = input.get_ascii(start) as char;
    proof {
        assert(t[0] == c);
    }
    let named = match c {
        'b' => Some('\x08'),
        't' => Some('\t'),
        'n' => Some('\n'),
        'f' => Some('\x0c'),
        'r' => Some('\r'),
        '"' => Some('"'),
        '\'' => Some('\''),
        '\\' => Some('\\'),
        _ => None,
    };
    if let Some(e) = named {
        return Some((e, start + 1));
    }
    // Up to four octal digits.
    let mut digits: Vec<char> = Vec::new();
    let mut k: usize = start;
    while k < n && digits.len() < 4 && is_octal_char(input.get_ascii(k))
        invariant
            digits@.len() <= 4,
            input.is_ascii(),
            n == input@.len(),
            start <= k <= n,
            digits@ == input@.subrange(start as int, k as int),
            digits@.len() == k - start,
            forall|j: int| 0 <= j < digits@.len() ==> is_octal_digit(#[trigger] digits@[j]),
        decreases n - k,
    {
        let d = input.get_ascii(k) as char;
        digits.push(d);
        k += 1;
        proof {
            assert(digits@ =~= input@.subrange(start as int, k as int));
        }
    }
    proof {
        lemma_octal_run_bounds(t, 4);
        lemma_octal_run_is(t, 4, digits@.len() as nat);
        assert(t.subrange(0, digits@.len() as int) =~= digits@);
    }
    if digits.len() == 0 {
        return None;
    }
    if digits.len() == 4 && digits[0] > '3' {
        return None;
    }
    match octal_to_utf8(&digits) {
        None => None,
        Some(ch) => Some((ch, k)),
    }
}

proof fn lemma_octal_run_is(t: Seq<char>, max: nat, k: nat)
    requires
        k <= max,
        k <= t.len(),
        forall|i: int| 0 <= i < k ==> is_octal_digit(#[trigger] t[i]),
        k == max || k == t.len() || !is_octal_digit(t[k as int]),
    ensures
        octal_run(t, max) == k,
    decreases k,
{
    if k > 0 {
        lemma_octal_run_is(t.drop_first(), (max - 1) as nat, (k - 1) as nat);
    }
}

/// Is `b` the code of an octal digit?
fn is_octal_char(b: u8) -> (r: bool)
    ensures
        r == is_octal_digit(b as char),
{
    48 <= b && b <= 55
}

/// The character whose code is the octal number `digits`, if that code is ASCII.
fn octal_to_utf8(digits: &Vec<char>) -> (r: Option<char>)
    requires
        digits@.len() <= 4,
        forall|j: int| 0 <= j < digits@.len() ==> is_octal_digit(#[trigger] digits@[j]),
    ensures
        match r {
            Some(c) => octal_value(digits@) < 128 && c == (octal_value(digits@) as u8) as char,
            None => octal_value(digits@) >= 128,
        },
{
    let mut value: u32 = 0;
    let mut i: usize = 0;
    while i < digits.len()
        invariant
            digits@.len() <= 4,
            forall|j: int| 0 <= j < digits@.len() ==> is_octal_digit(#[trigger] digits@[j]),
            i <= digits@.len(),
            value == octal_value(digits@.subrange(0, i as int)),
            value < pow8(i as nat),
        decreases digits@.len() - i,
    {
        let d = digits[i] as u32 - '0' as u32;
        proof {
            let p = digits@.subrange(0, i + 1);
            assert(p.drop_last() =~= digits@.subrange(0, i as int));
            assert(pow8((i + 1) as nat) == 8 * pow8(i as nat));
            assert(pow8(i as nat) <= 512) by {
                lemma_pow8_small(i as nat);
            }
        }
        value = value * 8 + d;
        i += 1;
    }
    proof {
        assert(digits@.subrange(0, i as int) =~= digits@);
    }
    if value < 128 {
        Some((value as u8) as char)
    } else {
        None
    }
}

pub open spec fn pow8(n: nat) -> nat
    decreases n,
{
    if n == 0 {
        1
    } else {
        8 * pow8((n - 1) as nat)
    }
}

proof fn lemma_pow8_small(n: nat)
    requires
        n <= 3,
    ensures
        pow8(n) <= 512,
{
    reveal_with_fuel(pow8, 4);
}

} // verus!
