//! Parsing of CIDR text (`"a.b.c.d/p"`) into a network address and a prefix
//! length, and of plain dotted-quad IPv4 text into a 32-bit address.
//!
//! The accepted grammar is stated by `cidr_model` and `ipv4_model`: exactly
//! one `/`, four octets separated by `.`, each octet one to three digits with
//! no superfluous leading zero and a value up to 255, and a prefix of one to
//! three digits with a value up to 32.

use vstd::prelude::*;

use crate::errors::MalformedCidr;

verus! {

/// Decimal digit, by code point.
pub open spec fn is_digit(c: char) -> bool {
    48 <= c as int && c as int <= 57
}

/// Value of one decimal digit.
pub open spec fn digit_val(c: char) -> int {
    c as int - 48
}

/// All characters of `s` are decimal digits.
pub open spec fn all_digits(s: Seq<char>) -> bool {
    forall|i: int| 0 <= i < s.len() ==> is_digit(#[trigger] s[i])
}

/// The number written by the digit string `s`, most significant digit first.
pub open spec fn dec_val(s: Seq<char>) -> int
    decreases s.len(),
{
    if s.len() == 0 {
        0
    } else {
        dec_val(s.drop_last()) * 10 + digit_val(s.last())
    }
}

/// Index of the first occurrence of `c` in `s[from..to]`, or `to` when there
/// is none.
pub open spec fn find_from(s: Seq<char>, c: char, from: int, to: int) -> int
    decreases to - from,
{
    if !(0 <= from < to <= s.len()) {
        to
    } else if s[from] == c {
        from
    } else {
        find_from(s, c, from + 1, to)
    }
}

/// A syntactically valid octet: one to three digits, no superfluous leading
/// zero, value at most 255.
pub open spec fn valid_octet(s: Seq<char>) -> bool {
    &&& 1 <= s.len() <= 3
    &&& all_digits(s)
    &&& dec_val(s) <= 255
    &&& (s.len() > 1 ==> s[0] != '0')
}

/// A syntactically valid prefix length: one to three digits, value at most 32.
pub open spec fn valid_prefix_text(s: Seq<char>) -> bool {
    &&& 1 <= s.len() <= 3
    &&& all_digits(s)
    &&& dec_val(s) <= 32
}

/// What a dotted-quad address text denotes: `Some(address)` exactly when the
/// text is four valid octets separated by three dots, `None` otherwise.
pub open spec fn ipv4_model(a: Seq<char>) -> Option<u32> {
    let n = a.len() as int;
    let d1 = find_from(a, '.', 0, n);
    let d2 = find_from(a, '.', d1 + 1, n);
    let d3 = find_from(a, '.', d2 + 1, n);
    if d3 >= n || find_from(a, '.', d3 + 1, n) != n {
        None
    } else {
        let o1 = a.subrange(0, d1);
        let o2 = a.subrange(d1 + 1, d2);
        let o3 = a.subrange(d2 + 1, d3);
        let o4 = a.subrange(d3 + 1, n);
        if valid_octet(o1) && valid_octet(o2) && valid_octet(o3) && valid_octet(o4) {
            Some(
                ((((dec_val(o1) * 256 + dec_val(o2)) * 256 + dec_val(o3)) * 256 + dec_val(
                    o4,
                )) as u32),
            )
        } else {
            None
        }
    }
}

/// What a CIDR text denotes: `Some((network, prefix_length))` exactly when
/// the text is a valid dotted quad, one `/`, and a valid prefix length.
/// The network value is the full parsed address, not pre-masked.
pub open spec fn cidr_model(s: Seq<char>) -> Option<(u32, u8)> {
    let n = s.len() as int;
    let sl = find_from(s, '/', 0, n);
    if sl >= n || find_from(s, '/', sl + 1, n) != n {
        None
    } else {
        let pre = s.subrange(sl + 1, n);
        match ipv4_model(s.subrange(0, sl)) {
            Some(addr) => if valid_prefix_text(pre) {
                Some((addr, dec_val(pre) as u8))
            } else {
                None
            },
            None => None,
        }
    }
}

/// Powers of ten.
pub open spec fn pow10(n: nat) -> int
    decreases n,
{
    if n == 0 {
        1
    } else {
        10 * pow10((n - 1) as nat)
    }
}

/// A digit string of length `n` writes a number in `0 .. pow10(n)`.
proof fn lemma_dec_val_bound(s: Seq<char>)
    requires
        all_digits(s),
    ensures
        0 <= dec_val(s) < pow10(s.len()),
    decreases s.len(),
{
    if s.len() > 0 {
        assert(all_digits(s.drop_last()));
        lemma_dec_val_bound(s.drop_last());
    }
}

/// First occurrence of `c` in `s[from..to]` as character positions, or `to`.
pub(crate) fn find_char_in(s: &str, c: char, from: usize, to: usize) -> (r: usize)
    requires
        from <= to,
        to <= s@.len(),
    ensures
        r as int == find_from(s@, c, from as int, to as int),
        from <= r <= to,
{
    let mut i = from;
    while i < to
        invariant
            from <= i <= to,
            to <= s@.len(),
            find_from(s@, c, from as int, to as int) == find_from(s@, c, i as int, to as int),
        decreases to - i,
    {
        if s.get_char(i) == c {
            return i;
        }
        assert(find_from(s@, c, i as int, to as int) == find_from(s@, c, i as int + 1, to as int));
        i += 1;
    }
    to
}

/// Reads `s[from..to]` as a decimal number. `None` exactly when some
/// character is not a digit.
fn scan_digits(s: &str, from: usize, to: usize) -> (r: Option<u32>)
    requires
        from < to,
        to <= s@.len(),
        to - from <= 3,
    ensures
        match r {
            Some(v) => all_digits(s@.subrange(from as int, to as int)) && v as int == dec_val(
                s@.subrange(from as int, to as int),
            ),
            None => !all_digits(s@.subrange(from as int, to as int)),
        },
{
    let ghost sub = s@.subrange(from as int, to as int);
    let mut v: u32 = 0;
    let mut i = from;
    while i < to
        invariant
            from <= i <= to,
            to <= s@.len(),
            to - from <= 3,
            sub == s@.subrange(from as int, to as int),
            forall|j: int| 0 <= j < i - from ==> is_digit(#[trigger] sub[j]),
            v as int == dec_val(sub.take(i - from)),
            v <= 999,
        decreases to - i,
    {
        let c = s.get_char(i);
        let cu = c as u32;
        if cu < 48 || cu > 57 {
            assert(!is_digit(sub[i - from]));
            return None;
        }
        proof {
            assert(sub.take(i - from).len() == i - from);
            assert(forall|j: int|
                0 <= j < i - from ==> is_digit(#[trigger] sub.take(i - from)[j]));
            lemma_dec_val_bound(sub.take(i - from));
            assert(pow10(0) == 1);
            assert(pow10(1) == 10);
            assert(pow10(2) == 100);
            assert(pow10((i - from) as nat) <= 100);
        }
        v = v * 10 + (cu - 48);
        proof {
            assert(sub.take(i - from + 1).drop_last() =~= sub.take(i - from));
            assert(sub.take(i - from + 1).last() == sub[i - from]);
        }
        i += 1;
    }
    assert(sub.take(to - from) =~= sub);
    Some(v)
}

/// Reads `s[from..to]` as one octet. `None` exactly when the text is not a
/// valid octet.
fn parse_octet(s: &str, from: usize, to: usize) -> (r: Option<u32>)
    requires
        from <= to,
        to <= s@.len(),
    ensures
        match r {
            Some(v) => valid_octet(s@.subrange(from as int, to as int)) && v as int == dec_val(
                s@.subrange(from as int, to as int),
            ) && v <= 255,
            None => !valid_octet(s@.subrange(from as int, to as int)),
        },
{
    let ghost sub = s@.subrange(from as int, to as int);
    let len = to - from;
    if len < 1 || len > 3 {
        return None;
    }
    if len > 1 && s.get_char(from) == '0' {
        assert(sub[0] == '0');
        return None;
    }
    match scan_digits(s, from, to) {
        Some(v) => if v <= 255 {
            Some(v)
        } else {
            None
        },
        None => None,
    }
}

/// Reads `s[from..to]` as a prefix length. `None` exactly when the text is
/// not a valid prefix length.
fn parse_prefix(s: &str, from: usize, to: usize) -> (r: Option<u32>)
    requires
        from <= to,
        to <= s@.len(),
    ensures
        match r {
            Some(v) => valid_prefix_text(s@.subrange(from as int, to as int)) && v as int
                == dec_val(s@.subrange(from as int, to as int)) && v <= 32,
            None => !valid_prefix_text(s@.subrange(from as int, to as int)),
        },
{
    let len = to - from;
    if len < 1 || len > 3 {
        return None;
    }
    match scan_digits(s, from, to) {
        Some(v) => if v <= 32 {
            Some(v)
        } else {
            None
        },
        None => None,
    }
}

/// Parses dotted-quad IPv4 text into its 32-bit address, exactly as
/// `ipv4_model` states.
pub fn parse_ipv4(s: &str) -> (r: Option<u32>)
    ensures
        r == ipv4_model(s@),
{
    let n = s.unicode_len();
    let d1 = find_char_in(s, '.', 0, n);
    if d1 == n {
        return None;
    }
    let d2 = find_char_in(s, '.', d1 + 1, n);
    if d2 == n {
        return None;
    }
    let d3 = find_char_in(s, '.', d2 + 1, n);
    if d3 == n {
        return None;
    }
    if find_char_in(s, '.', d3 + 1, n) != n {
        return None;
    }
    let o1 = match parse_octet(s, 0, d1) {
        Some(v) => v,
        None => {
            return None;
        },
    };
    let o2 = match parse_octet(s, d1 + 1, d2) {
        Some(v) => v,
        None => {
            return None;
        },
    };
    let o3 = match parse_octet(s, d2 + 1, d3) {
        Some(v) => v,
        None => {
            return None;
        },
    };
    let o4 = match parse_octet(s, d3 + 1, n) {
        Some(v) => v,
        None => {
            return None;
        },
    };
    Some(((o1 * 256 + o2) * 256 + o3) * 256 + o4)
}

/// Parses CIDR text into `(network, prefix_length)`, exactly as `cidr_model`
/// states: `Ok` on a valid CIDR, `Err(MalformedCidr)` on everything else.
pub fn parse_cidr(s: &str) -> (r: Result<(u32, u8), MalformedCidr>)
    ensures
        match r {
            Ok(p) => cidr_model(s@) == Some(p) && p.1 <= 32,
            Err(_) => cidr_model(s@) is None,
        },
{
    let n = s.unicode_len();
    let sl = find_char_in(s, '/', 0, n);
    if sl == n {
        return Err(MalformedCidr);
    }
    if find_char_in(s, '/', sl + 1, n) != n {
        return Err(MalformedCidr);
    }
    let addr_text = s.substring_char(0, sl);
    let addr = match parse_ipv4(addr_text) {
        Some(a) => a,
        None => {
            return Err(MalformedCidr);
        },
    };
    match parse_prefix(s, sl + 1, n) {
        Some(p) => Ok((addr, p as u8)),
        None => Err(MalformedCidr),
    }
}

} // verus!
