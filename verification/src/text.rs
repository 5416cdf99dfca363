//! Reading text byte by byte: finding a byte, cutting off white space, and
//! reading decimal numbers.
//!
//! The text is UTF-8, or close to it: a byte sequence that is no valid UTF-8
//! is never white space, a digit or a sign, and so is passed over like any
//! other character.
use vstd::prelude::*;
use vstd::slice::slice_subrange;

verus! {

/// The position of the first byte `b` at or behind `from`; the length of the
/// text where there is none.
pub open spec fn find(s: Seq<u8>, b: u8, from: int) -> int
    decreases s.len() - from,
{
    if from < 0 || from >= s.len() {
        s.len() as int
    } else if s[from] == b {
        from
    } else {
        find(s, b, from + 1)
    }
}

/// The byte found lies at or behind `from`, and no such byte lies before it.
pub proof fn lemma_find(s: Seq<u8>, b: u8, from: int)
    requires
        0 <= from <= s.len(),
    ensures
        from <= find(s, b, from) <= s.len(),
        find(s, b, from) < s.len() ==> s[find(s, b, from)] == b,
        forall|k: int| from <= k < find(s, b, from) ==> s[k] != b,
    decreases s.len() - from,
{
    if from < s.len() && s[from] != b {
        lemma_find(s, b, from + 1);
    }
}

/// Finds the first byte `b` at or behind `from`.
pub fn find_byte(s: &[u8], b: u8, from: usize) -> (at: usize)
    requires
        from <= s@.len(),
    ensures
        at == find(s@, b, from as int),
{
    let n: usize = s.len();
    let mut i: usize = from;
    while i < n && s[i] != b
        invariant
            n == s@.len(),
            from <= i <= n,
            find(s@, b, from as int) == find(s@, b, i as int),
        decreases n - i,
    {
        i = i + 1;
    }
    i
}

/// Whether the three bytes encode a white space character: U+1680, U+2000
/// to U+200A, U+2028, U+2029, U+202F, U+205F or U+3000.
pub open spec fn is_wide_space(a: u8, b: u8, c: u8) -> bool {
    ||| a == 0xe1 && b == 0x9a && c == 0x80
    ||| a == 0xe2 && b == 0x80 && (0x80 <= c <= 0x8a || c == 0xa8 || c == 0xa9 || c == 0xaf)
    ||| a == 0xe2 && b == 0x81 && c == 0x9f
    ||| a == 0xe3 && b == 0x80 && c == 0x80
}

/// Whether the two bytes encode a white space character: U+0085 or U+00A0.
pub open spec fn is_narrow_space(a: u8, b: u8) -> bool {
    a == 0xc2 && (b == 0x85 || b == 0xa0)
}

/// Whether the byte is a white space character: U+0009 to U+000D or U+0020.
pub open spec fn is_plain_space(a: u8) -> bool {
    0x09 <= a <= 0x0d || a == 0x20
}

/// The number of bytes of the white space character that starts at `i` and
/// ends before `hi`; zero where there is none.
pub open spec fn space_at(s: Seq<u8>, i: int, hi: int) -> int {
    if i < 0 || hi > s.len() || i >= hi {
        0
    } else if is_plain_space(s[i]) {
        1
    } else if i + 1 < hi && is_narrow_space(s[i], s[i + 1]) {
        2
    } else if i + 2 < hi && is_wide_space(s[i], s[i + 1], s[i + 2]) {
        3
    } else {
        0
    }
}

/// The number of bytes of the white space character that ends before `j`
/// and starts at or behind `lo`; zero where there is none.
pub open spec fn space_before(s: Seq<u8>, lo: int, j: int) -> int {
    if lo < 0 || j > s.len() || j <= lo {
        0
    } else if is_plain_space(s[j - 1]) {
        1
    } else if j - 2 >= lo && is_narrow_space(s[j - 2], s[j - 1]) {
        2
    } else if j - 3 >= lo && is_wide_space(s[j - 3], s[j - 2], s[j - 1]) {
        3
    } else {
        0
    }
}

/// Where the text from `i` to `hi` starts once the white space in front of
/// it is cut off.
pub open spec fn trim_start(s: Seq<u8>, i: int, hi: int) -> int
    decreases hi - i,
{
    if space_at(s, i, hi) > 0 {
        trim_start(s, i + space_at(s, i, hi), hi)
    } else {
        i
    }
}

/// Where the text from `lo` to `j` ends once the white space behind it is
/// cut off.
pub open spec fn trim_end(s: Seq<u8>, lo: int, j: int) -> int
    decreases j - lo,
{
    if space_before(s, lo, j) > 0 {
        trim_end(s, lo, j - space_before(s, lo, j))
    } else {
        j
    }
}

/// The text without the white space at its two ends.
pub open spec fn trimmed(s: Seq<u8>) -> Seq<u8> {
    let lo = trim_start(s, 0, s.len() as int);
    let hi = trim_end(s, lo, s.len() as int);
    s.subrange(lo, hi)
}

/// Measures the white space character that starts at `i`.
fn space_len_at(s: &[u8], i: usize, hi: usize) -> (n: usize)
    requires
        i <= hi <= s@.len(),
    ensures
        n == space_at(s@, i as int, hi as int),
{
    if i >= hi {
        return 0;
    }
    let a: u8 = s[i];
    if (0x09 <= a && a <= 0x0d) || a == 0x20 {
        return 1;
    }
    if hi - i >= 2 {
        let b: u8 = s[i + 1];
        if a == 0xc2 && (b == 0x85 || b == 0xa0) {
            return 2;
        }
        if hi - i >= 3 {
            let c: u8 = s[i + 2];
            if (a == 0xe1 && b == 0x9a && c == 0x80) || (a == 0xe2 && b == 0x80 && ((0x80 <= c && c
                <= 0x8a) || c == 0xa8 || c == 0xa9 || c == 0xaf)) || (a == 0xe2 && b == 0x81 && c
                == 0x9f) || (a == 0xe3 && b == 0x80 && c == 0x80) {
                return 3;
            }
        }
    }
    0
}

/// Measures the white space character that ends before `j`.
fn space_len_before(s: &[u8], lo: usize, j: usize) -> (n: usize)
    requires
        lo <= j <= s@.len(),
    ensures
        n == space_before(s@, lo as int, j as int),
{
    if j <= lo {
        return 0;
    }
    let c: u8 = s[j - 1];
    if (0x09 <= c && c <= 0x0d) || c == 0x20 {
        return 1;
    }
    if j - lo >= 2 {
        let b: u8 = s[j - 2];
        if b == 0xc2 && (c == 0x85 || c == 0xa0) {
            return 2;
        }
        if j - lo >= 3 {
            let a: u8 = s[j - 3];
            if (a == 0xe1 && b == 0x9a && c == 0x80) || (a == 0xe2 && b == 0x80 && ((0x80 <= c && c
                <= 0x8a) || c == 0xa8 || c == 0xa9 || c == 0xaf)) || (a == 0xe2 && b == 0x81 && c
                == 0x9f) || (a == 0xe3 && b == 0x80 && c == 0x80) {
                return 3;
            }
        }
    }
    0
}

/// Cuts the white space off the two ends of the text.
pub fn trim(s: &[u8]) -> (t: &[u8])
    ensures
        t@ == trimmed(s@),
{
    let n: usize = s.len();
    let mut lo: usize = 0;
    let mut more: bool = true;
    while more
        invariant
            n == s@.len(),
            lo <= n,
            trim_start(s@, 0, n as int) == trim_start(s@, lo as int, n as int),
            !more ==> space_at(s@, lo as int, n as int) == 0,
        decreases n - lo, more as int,
    {
        let k: usize = space_len_at(s, lo, n);
        if k > 0 {
            lo = lo + k;
        } else {
            more = false;
        }
    }
    let mut hi: usize = n;
    let mut more: bool = true;
    while more
        invariant
            n == s@.len(),
            lo <= hi <= n,
            trim_end(s@, lo as int, n as int) == trim_end(s@, lo as int, hi as int),
            !more ==> space_before(s@, lo as int, hi as int) == 0,
        decreases hi - lo, more as int,
    {
        let k: usize = space_len_before(s, lo, hi);
        if k > 0 {
            hi = hi - k;
        } else {
            more = false;
        }
    }
    slice_subrange(s, lo, hi)
}

/// Whether the byte is a decimal digit.
pub open spec fn is_digit(b: u8) -> bool {
    0x30 <= b <= 0x39
}

/// The first `k` bytes of the text are decimal digits.
pub open spec fn digits_upto(s: Seq<u8>, k: int) -> bool {
    forall|i: int| 0 <= i < k && i < s.len() ==> is_digit(#[trigger] s[i])
}

/// The number that the first `k` digits of the text spell.
pub open spec fn digits_value(s: Seq<u8>, k: int) -> int
    decreases k,
{
    if k <= 0 {
        0
    } else {
        10 * digits_value(s, k - 1) + (s[k - 1] - 0x30)
    }
}

/// The integer that the text spells: decimal digits, at least one, with a
/// sign in front of them or without.
pub open spec fn parse_int(s: Seq<u8>) -> Option<int> {
    let signed = s.len() > 0 && (s[0] == 0x2b || s[0] == 0x2d);
    let body = if signed {
        s.subrange(1, s.len() as int)
    } else {
        s
    };
    if body.len() == 0 || !digits_upto(body, body.len() as int) {
        None
    } else if s[0] == 0x2d {
        Some(-digits_value(body, body.len() as int))
    } else {
        Some(digits_value(body, body.len() as int))
    }
}

/// The `i64` that the text spells, if it spells one.
pub open spec fn parse_i64(s: Seq<u8>) -> Option<i64> {
    match parse_int(s) {
        Some(v) => if i64::MIN <= v <= i64::MAX {
            Some(v as i64)
        } else {
            None
        },
        None => None,
    }
}

/// The `usize` that the text spells, if it spells one. A minus sign is not
/// accepted, not even in front of zero.
pub open spec fn parse_usize(s: Seq<u8>) -> Option<usize> {
    if s.len() > 0 && s[0] == 0x2d {
        None
    } else {
        match parse_int(s) {
            Some(v) => if v <= usize::MAX {
                Some(v as usize)
            } else {
                None
            },
            None => None,
        }
    }
}

/// More digits spell no smaller number.
proof fn lemma_digits_grow(s: Seq<u8>, j: int, k: int)
    requires
        0 <= j <= k <= s.len(),
        digits_upto(s, k),
    ensures
        0 <= digits_value(s, j) <= digits_value(s, k),
    decreases k,
{
    if k > 0 {
        assert(is_digit(s[k - 1]));
        if j < k {
            lemma_digits_grow(s, j, k - 1);
        } else {
            lemma_digits_grow(s, j - 1, k - 1);
        }
    }
}

/// Tells whether the text from `from` on consists of digits, and of at least
/// one.
fn all_digits(s: &[u8], from: usize) -> (ok: bool)
    requires
        from <= s@.len(),
    ensures
        ok == ({
            let body = s@.subrange(from as int, s@.len() as int);
            body.len() > 0 && digits_upto(body, body.len() as int)
        }),
{
    let n: usize = s.len();
    let ghost body = s@.subrange(from as int, n as int);
    if from == n {
        return false;
    }
    let mut i: usize = from;
    while i < n
        invariant
            n == s@.len(),
            from <= i <= n,
            body == s@.subrange(from as int, n as int),
            digits_upto(body, i - from),
        decreases n - i,
    {
        let b: u8 = s[i];
        assert(body[i - from] == b);
        if !(0x30 <= b && b <= 0x39) {
            assert(!is_digit(body[i - from]));
            return false;
        }
        i = i + 1;
    }
    true
}

/// Reads the digits of `s` from `from` on as a number of the given sign,
/// where all of them are digits and the number is an `i64`.
fn read_digits(s: &[u8], from: usize, negative: bool) -> (result: Option<i64>)
    requires
        from <= s@.len(),
    ensures
        ({
            let body = s@.subrange(from as int, s@.len() as int);
            let v = if negative {
                -digits_value(body, body.len() as int)
            } else {
                digits_value(body, body.len() as int)
            };
            match result {
                Some(r) => body.len() > 0 && digits_upto(body, body.len() as int) && r == v,
                None => body.len() == 0 || !digits_upto(body, body.len() as int) || !(i64::MIN <= v
                    <= i64::MAX),
            }
        }),
{
    let n: usize = s.len();
    let ghost body = s@.subrange(from as int, n as int);
    // Whether all bytes are digits is found out first, so that a number out
    // of range is told from a byte that is no digit.
    if !all_digits(s, from) {
        return None;
    }
    let mut acc: i64 = 0;
    let mut i: usize = from;
    while i < n
        invariant
            n == s@.len(),
            from <= i <= n,
            body == s@.subrange(from as int, n as int),
            digits_upto(body, body.len() as int),
            acc == if negative {
                -digits_value(body, i - from)
            } else {
                digits_value(body, i - from)
            },
        decreases n - i,
    {
        assert(body[i - from] == s@[i as int]);
        assert(is_digit(body[i - from]));
        let d: i64 = (s[i] - 0x30) as i64;
        proof {
            lemma_digits_grow(body, i + 1 - from, body.len() as int);
        }
        let next = match acc.checked_mul(10) {
            Some(tenfold) => if negative {
                tenfold.checked_sub(d)
            } else {
                tenfold.checked_add(d)
            },
            None => None,
        };
        match next {
            Some(v) => {
                acc = v;
            },
            None => {
                return None;
            },
        }
        i = i + 1;
    }
    Some(acc)
}

/// Reads the `i64` that the text spells.
pub fn read_i64(s: &[u8]) -> (result: Option<i64>)
    ensures
        result == parse_i64(s@),
{
    if s.len() == 0 {
        return None;
    }
    let first: u8 = s[0];
    if first == 0x2d {
        read_digits(s, 1, true)
    } else if first == 0x2b {
        read_digits(s, 1, false)
    } else {
        assert(s@.subrange(0, s@.len() as int) =~= s@);
        read_digits(s, 0, false)
    }
}

/// Reads the digits of `s` from `from` on as a `usize`, where all of them
/// are digits and the number is a `usize`.
fn read_unsigned_digits(s: &[u8], from: usize) -> (result: Option<usize>)
    requires
        from <= s@.len(),
    ensures
        ({
            let body = s@.subrange(from as int, s@.len() as int);
            let v = digits_value(body, body.len() as int);
            match result {
                Some(r) => body.len() > 0 && digits_upto(body, body.len() as int) && r == v,
                None => body.len() == 0 || !digits_upto(body, body.len() as int) || v > usize::MAX,
            }
        }),
{
    let n: usize = s.len();
    let ghost body = s@.subrange(from as int, n as int);
    if !all_digits(s, from) {
        return None;
    }
    let mut acc: usize = 0;
    let mut i: usize = from;
    while i < n
        invariant
            n == s@.len(),
            from <= i <= n,
            body == s@.subrange(from as int, n as int),
            digits_upto(body, body.len() as int),
            acc == digits_value(body, i - from),
        decreases n - i,
    {
        assert(body[i - from] == s@[i as int]);
        assert(is_digit(body[i - from]));
        let d: usize = (s[i] - 0x30) as usize;
        proof {
            lemma_digits_grow(body, i + 1 - from, body.len() as int);
        }
        let next = match acc.checked_mul(10) {
            Some(tenfold) => tenfold.checked_add(d),
            None => None,
        };
        match next {
            Some(v) => {
                acc = v;
            },
            None => {
                return None;
            },
        }
        i = i + 1;
    }
    Some(acc)
}

/// Reads the `usize` that the text spells.
pub fn read_usize(s: &[u8]) -> (result: Option<usize>)
    ensures
        result == parse_usize(s@),
{
    if s.len() == 0 {
        return None;
    }
    let first: u8 = s[0];
    if first == 0x2d {
        None
    } else if first == 0x2b {
        read_unsigned_digits(s, 1)
    } else {
        assert(s@.subrange(0, s@.len() as int) =~= s@);
        read_unsigned_digits(s, 0)
    }
}

} // verus!
