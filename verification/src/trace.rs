use vstd::prelude::*;

use crate::error::SimError;

verus! {

/// One memory access of a trace.
#[derive(Debug, Clone, Copy, PartialEq, Eq, Structural)]
pub enum TraceOp {
    Read(u64),
    Write(u64),
}

impl TraceOp {
    /// The address the access is for.
    pub open spec fn address(self) -> u64 {
        match self {
            TraceOp::Read(a) => a,
            TraceOp::Write(a) => a,
        }
    }

    /// Whether the access reads.
    pub open spec fn is_read(self) -> bool {
        self is Read
    }
}

/// Whether `c` is white space in the sense of Unicode's White_Space property.
pub open spec fn is_white_space(c: char) -> bool {
    ||| '\u{9}' <= c <= '\u{d}'
    ||| c == ' '
    ||| c == '\u{85}'
    ||| c == '\u{a0}'
    ||| c == '\u{1680}'
    ||| '\u{2000}' <= c <= '\u{200a}'
    ||| c == '\u{2028}'
    ||| c == '\u{2029}'
    ||| c == '\u{202f}'
    ||| c == '\u{205f}'
    ||| c == '\u{3000}'
}

/// Unicode white space (as `char::is_whitespace`).
pub fn white_space(c: char) -> (r: bool)
    ensures
        r == is_white_space(c),
{
    ('\u{9}' <= c && c <= '\u{d}') || c == ' ' || c == '\u{85}' || c == '\u{a0}' || c
        == '\u{1680}' || ('\u{2000}' <= c && c <= '\u{200a}') || c == '\u{2028}' || c
        == '\u{2029}' || c == '\u{202f}' || c == '\u{205f}' || c == '\u{3000}'
}

/// The value of a hexadecimal digit, if `c` is one.
pub open spec fn hex_digit(c: char) -> Option<u64> {
    if '0' <= c <= '9' {
        Some((c as u64 - '0' as u64) as u64)
    } else if 'a' <= c <= 'f' {
        Some((c as u64 - 'a' as u64 + 10) as u64)
    } else if 'A' <= c <= 'F' {
        Some((c as u64 - 'A' as u64 + 10) as u64)
    } else {
        None
    }
}

/// The first index in `i..hi` at which `s` holds `c`, or `hi`.
pub open spec fn find_char(s: Seq<char>, i: int, hi: int, c: char) -> int
    decreases hi - i,
{
    if i >= hi {
        hi
    } else if s[i] == c {
        i
    } else {
        find_char(s, i + 1, hi, c)
    }
}

/// What `find_char` finds: an index in range, before which `c` does not occur, and at which
/// `c` stands unless the range was exhausted.
pub proof fn lemma_find_char_bounds(s: Seq<char>, i: int, hi: int, c: char)
    requires
        i <= hi,
    ensures
        i <= find_char(s, i, hi, c) <= hi,
        forall|k: int| i <= k < find_char(s, i, hi, c) ==> s[k] != c,
        find_char(s, i, hi, c) < hi ==> s[find_char(s, i, hi, c)] == c,
    decreases hi - i,
{
    if i < hi && s[i] != c {
        lemma_find_char_bounds(s, i + 1, hi, c);
    }
}

/// The first index in `i..hi` at which `s` holds a character that is (when `ws`) or is
/// not (when `!ws`) white space, or `hi`.
pub open spec fn find_space(s: Seq<char>, i: int, hi: int, ws: bool) -> int
    decreases hi - i,
{
    if i >= hi {
        hi
    } else if is_white_space(s[i]) == ws {
        i
    } else {
        find_space(s, i + 1, hi, ws)
    }
}

/// Whether every character of `s[lo..hi]` is a hexadecimal digit.
pub open spec fn all_hex(s: Seq<char>, lo: int, hi: int) -> bool {
    forall|k: int| lo <= k < hi ==> (#[trigger] hex_digit(s[k])) is Some
}

/// The number the hexadecimal digits `s[lo..hi]` spell.
pub open spec fn hex_value(s: Seq<char>, lo: int, hi: int) -> nat
    decreases hi - lo,
{
    if hi <= lo {
        0
    } else {
        (hex_value(s, lo, hi - 1) * 16 + hex_digit(s[hi - 1])->Some_0) as nat
    }
}

/// `s[lo..hi]` read as an unsigned 64-bit hexadecimal number, with an optional leading
/// `+` (as `u64::from_str_radix(.., 16)`).
pub open spec fn parse_hex(s: Seq<char>, lo: int, hi: int) -> Option<u64> {
    let lo2 = if lo < hi && s[lo] == '+' { lo + 1 } else { lo };
    if lo2 >= hi || !all_hex(s, lo2, hi) || hex_value(s, lo2, hi) > u64::MAX {
        None
    } else {
        Some(hex_value(s, lo2, hi) as u64)
    }
}

/// Whether `c` is an ASCII character.
pub open spec fn is_ascii_char(c: char) -> bool {
    c < '\u{80}'
}

/// The hexadecimal digits of an address token `s[lo..hi]`: what follows its first `x`, or
/// the whole token if it has none.  A character outside ASCII before that `x` makes the
/// token unreadable.
pub open spec fn address_part(s: Seq<char>, lo: int, hi: int) -> Option<(int, int)> {
    let x = find_char(s, lo, hi, 'x');
    if x < hi {
        if exists|k: int| lo <= k < x && !#[trigger] is_ascii_char(s[k]) {
            None
        } else {
            Some((x + 1, hi))
        }
    } else {
        Some((lo, hi))
    }
}

/// The access the line `s[lo..hi]` describes: its first white-space separated word is `r`
/// or `w`, its second is the address.
pub open spec fn parse_line(s: Seq<char>, lo: int, hi: int) -> Option<TraceOp> {
    let a0 = find_space(s, lo, hi, false);
    let a1 = find_space(s, a0, hi, true);
    let b0 = find_space(s, a1, hi, false);
    let b1 = find_space(s, b0, hi, true);
    if a0 >= hi || b0 >= hi {
        None
    } else {
        match address_part(s, b0, b1) {
            None => None,
            Some((d0, d1)) => match parse_hex(s, d0, d1) {
                None => None,
                Some(addr) => if a1 == a0 + 1 && s[a0] == 'r' {
                    Some(TraceOp::Read(addr))
                } else if a1 == a0 + 1 && s[a0] == 'w' {
                    Some(TraceOp::Write(addr))
                } else {
                    None
                },
            },
        }
    }
}

/// The accesses of the lines of `s` from `pos` on: lines end at `\n`, and a line that
/// ends there loses a final `\r`.  None if a line is not an access.
pub open spec fn parse_lines(s: Seq<char>, pos: int) -> Option<Seq<TraceOp>>
    decreases (if pos < s.len() { s.len() - pos } else { 0 }),
{
    if pos >= s.len() || pos < 0 {
        Some(Seq::empty())
    } else {
        let nl = find_char(s, pos, s.len() as int, '\n');
        proof {
            lemma_find_char_bounds(s, pos, s.len() as int, '\n');
        }
        let end = if nl < s.len() && nl > pos && s[nl - 1] == '\r' { nl - 1 } else { nl };
        match parse_line(s, pos, end) {
            None => None,
            Some(op) => match parse_lines(s, nl + 1) {
                None => None,
                Some(rest) => Some(seq![op] + rest),
            },
        }
    }
}


proof fn lemma_find_space_bounds(s: Seq<char>, i: int, hi: int, ws: bool)
    requires
        i <= hi,
    ensures
        i <= find_space(s, i, hi, ws) <= hi,
    decreases hi - i,
{
    if i < hi && is_white_space(s[i]) != ws {
        lemma_find_space_bounds(s, i + 1, hi, ws);
    }
}

proof fn lemma_hex_value_grows(s: Seq<char>, lo: int, k: int, j: int)
    requires
        lo <= k <= j,
    ensures
        hex_value(s, lo, k) <= hex_value(s, lo, j),
    decreases j - k,
{
    if k < j {
        lemma_hex_value_grows(s, lo, k, j - 1);
    }
}

fn hex_digit_exec(c: char) -> (r: Option<u64>)
    ensures
        r == hex_digit(c),
{
    if '0' <= c && c <= '9' {
        Some(c as u64 - '0' as u64)
    } else if 'a' <= c && c <= 'f' {
        Some(c as u64 - 'a' as u64 + 10)
    } else if 'A' <= c && c <= 'F' {
        Some(c as u64 - 'A' as u64 + 10)
    } else {
        None
    }
}

fn find_char_exec(s: &Vec<char>, i: usize, hi: usize, c: char) -> (r: usize)
    requires
        i <= hi <= s.len(),
    ensures
        r == find_char(s@, i as int, hi as int, c),
{
    let mut k = i;
    while k < hi && s[k] != c
        invariant
            i <= k <= hi <= s.len(),
            find_char(s@, k as int, hi as int, c) == find_char(s@, i as int, hi as int, c),
        decreases hi - k,
    {
        k = k + 1;
    }
    k
}

fn find_space_exec(s: &Vec<char>, i: usize, hi: usize, ws: bool) -> (r: usize)
    requires
        i <= hi <= s.len(),
    ensures
        r == find_space(s@, i as int, hi as int, ws),
{
    let mut k = i;
    while k < hi && white_space(s[k]) != ws
        invariant
            i <= k <= hi <= s.len(),
            find_space(s@, k as int, hi as int, ws) == find_space(s@, i as int, hi as int, ws),
        decreases hi - k,
    {
        k = k + 1;
    }
    k
}

fn parse_hex_exec(s: &Vec<char>, lo: usize, hi: usize) -> (r: Option<u64>)
    requires
        lo <= hi <= s.len(),
    ensures
        r == parse_hex(s@, lo as int, hi as int),
{
    let lo2 = if lo < hi && s[lo] == '+' { lo + 1 } else { lo };
    let ghost spec_lo2: int = if lo < hi && s@[lo as int] == '+' { lo + 1 } else { lo as int };
    assert(lo2 == spec_lo2);
    if lo2 >= hi {
        return None;
    }
    let mut value: u64 = 0;
    let mut k = lo2;
    while k < hi
        invariant
            lo <= lo2 <= k <= hi <= s.len(),
            lo2 < hi,
            lo2 == (if lo < hi && s@[lo as int] == '+' { lo + 1 } else { lo as int }),
            all_hex(s@, lo2 as int, k as int),
            value == hex_value(s@, lo2 as int, k as int),
        decreases hi - k,
    {
        let d = match hex_digit_exec(s[k]) {
            Some(d) => d,
            None => {
                proof {
                    assert(hex_digit(s@[k as int]) is None);
                    assert(!all_hex(s@, lo2 as int, hi as int));
                    assert(parse_hex(s@, lo as int, hi as int) is None);
                }
                return None;
            },
        };
        proof {
            lemma_hex_value_grows(s@, lo2 as int, (k + 1) as int, hi as int);
            assert(hex_value(s@, lo2 as int, (k + 1) as int) == value * 16 + d);
        }
        value = match value.checked_mul(16) {
            Some(v) => v,
            None => {
                proof {
                    assert(hex_value(s@, lo2 as int, hi as int) > u64::MAX);
                    assert(parse_hex(s@, lo as int, hi as int) is None);
                }
                return None;
            },
        };
        value = match value.checked_add(d) {
            Some(v) => v,
            None => {
                proof {
                    assert(hex_value(s@, lo2 as int, hi as int) > u64::MAX);
                    assert(parse_hex(s@, lo as int, hi as int) is None);
                }
                return None;
            },
        };
        k = k + 1;
    }
    Some(value)
}

fn address_part_exec(s: &Vec<char>, lo: usize, hi: usize) -> (r: Option<(usize, usize)>)
    requires
        lo <= hi <= s.len(),
    ensures
        match address_part(s@, lo as int, hi as int) {
            Some((a, b)) => r == Some((a as usize, b as usize)) && lo <= a <= b <= hi,
            None => r is None,
        },
{
    let x = find_char_exec(s, lo, hi, 'x');
    proof {
        lemma_find_char_bounds(s@, lo as int, hi as int, 'x');
    }
    if x < hi {
        let mut k = lo;
        while k < x
            invariant
                lo <= k <= x < hi <= s.len(),
                x == find_char(s@, lo as int, hi as int, 'x'),
                forall|j: int| lo <= j < k ==> #[trigger] is_ascii_char(s@[j]),
            decreases x - k,
        {
            if s[k] >= '\u{80}' {
                proof {
                    assert(lo <= k < x && !is_ascii_char(s@[k as int]));
                }
                return None;
            }
            k = k + 1;
        }
        Some((x + 1, hi))
    } else {
        Some((lo, hi))
    }
}

fn parse_line_exec(s: &Vec<char>, lo: usize, hi: usize) -> (r: Option<TraceOp>)
    requires
        lo <= hi <= s.len(),
    ensures
        r == parse_line(s@, lo as int, hi as int),
{
    let a0 = find_space_exec(s, lo, hi, false);
    proof {
        lemma_find_space_bounds(s@, lo as int, hi as int, false);
    }
    let a1 = find_space_exec(s, a0, hi, true);
    proof {
        lemma_find_space_bounds(s@, a0 as int, hi as int, true);
    }
    let b0 = find_space_exec(s, a1, hi, false);
    proof {
        lemma_find_space_bounds(s@, a1 as int, hi as int, false);
    }
    let b1 = find_space_exec(s, b0, hi, true);
    proof {
        lemma_find_space_bounds(s@, b0 as int, hi as int, true);
    }
    if a0 >= hi || b0 >= hi {
        return None;
    }
    let (d0, d1) = match address_part_exec(s, b0, b1) {
        Some(p) => p,
        None => {
            return None;
        },
    };
    let addr = match parse_hex_exec(s, d0, d1) {
        Some(a) => a,
        None => {
            return None;
        },
    };
    if a1 == a0 + 1 && s[a0] == 'r' {
        Some(TraceOp::Read(addr))
    } else if a1 == a0 + 1 && s[a0] == 'w' {
        Some(TraceOp::Write(addr))
    } else {
        None
    }
}

/// The characters of `content`, in order.
fn chars_of(content: &str) -> (v: Vec<char>)
    ensures
        v@ == content@,
{
    broadcast use vstd::string::axiom_spec_iter;

    let mut v: Vec<char> = Vec::new();
    for c in it: content.chars()
        invariant
            it.seq() == content@,
            v@ == it.seq().take(it.index()),
    {
        v.push(c);
    }
    v
}

/// A trace of accesses, read one after the other.
pub struct Trace {
    inner: Vec<TraceOp>,
    idx: usize,
}

impl Trace {
    /// The accesses of the trace.
    pub closed spec fn ops(&self) -> Seq<TraceOp> {
        self.inner@
    }

    /// How many accesses have been read.
    pub closed spec fn position(&self) -> nat {
        self.idx as nat
    }

    /// The accesses left to read, in order.
    pub open spec fn remaining_ops(&self) -> Seq<TraceOp> {
        if self.position() < self.ops().len() {
            self.ops().subrange(self.position() as int, self.ops().len() as int)
        } else {
            Seq::empty()
        }
    }

    /// How many accesses are left to read.
    pub open spec fn remaining(&self) -> nat {
        if self.position() < self.ops().len() {
            (self.ops().len() - self.position()) as nat
        } else {
            0
        }
    }

    /// Reads a trace: one access per line, `r` or `w`, white space, and the address in
    /// hexadecimal (after an optional prefix ending in `x`).  Fails if any line is not
    /// such an access.
    pub fn parse(content: &str) -> (r: Result<Trace, SimError>)
        ensures
            match parse_lines(content@, 0) {
                Some(ops) => r matches Ok(t) && t.ops() == ops && t.position() == 0,
                None => r == Err::<Trace, SimError>(SimError::InvalidTrace),
            },
    {
        let s = chars_of(content);
        let len = s.len();
        let mut ops: Vec<TraceOp> = Vec::new();
        let mut pos: usize = 0;
        while pos < len
            invariant
                len == s.len(),
                s@ == content@,
                pos <= len,
                parse_lines(s@, 0) is Some <==> parse_lines(s@, pos as int) is Some,
                parse_lines(s@, pos as int) matches Some(rest) ==> parse_lines(s@, 0) == Some(
                    ops@ + rest,
                ),
            decreases len - pos,
        {
            let nl = find_char_exec(&s, pos, len, '\n');
            proof {
                lemma_find_char_bounds(s@, pos as int, len as int, '\n');
            }
            let end = if nl < len && nl > pos && s[nl - 1] == '\r' { nl - 1 } else { nl };
            let op = match parse_line_exec(&s, pos, end) {
                Some(op) => op,
                None => {
                    return Err(SimError::InvalidTrace);
                },
            };
            proof {
                if let Some(rest) = parse_lines(s@, nl + 1) {
                    assert(ops@ + (seq![op] + rest) == ops@.push(op) + rest);
                }
            }
            ops.push(op);
            if nl >= len {
                proof {
                    assert(parse_lines(s@, nl + 1) == Some(Seq::<TraceOp>::empty()));
                    assert(ops@ + Seq::<TraceOp>::empty() == ops@);
                }
                return Ok(Trace { inner: ops, idx: 0 });
            }
            pos = nl + 1;
        }
        proof {
            assert(ops@ + Seq::<TraceOp>::empty() == ops@);
        }
        Ok(Trace { inner: ops, idx: 0 })
    }

    /// The access at the current position, if the trace has one there; the position
    /// moves on by one on every call, also past the end.
    pub fn next(&mut self) -> (r: Option<TraceOp>)
        requires
            old(self).position() < usize::MAX,
        ensures
            final(self).ops() == old(self).ops(),
            final(self).position() == old(self).position() + 1,
            r == (if old(self).position() < old(self).ops().len() {
                Some(old(self).ops()[old(self).position() as int])
            } else {
                None
            }),
    {
        let idx = self.idx;
        self.idx = self.idx + 1;
        if idx < self.inner.len() {
            Some(self.inner[idx])
        } else {
            None
        }
    }

    /// How many accesses have been read (or skipped past the end).
    pub fn current_position(&self) -> (r: usize)
        ensures
            r == self.position(),
    {
        self.idx
    }

    /// How many accesses the trace holds.
    pub fn len(&self) -> (r: usize)
        ensures
            r == self.ops().len(),
    {
        self.inner.len()
    }
}

/// The upper-case form of a lower-case hexadecimal letter; any other character stays.
pub open spec fn upcase_hex_letter(c: char) -> char {
    if c == 'a' {
        'A'
    } else if c == 'b' {
        'B'
    } else if c == 'c' {
        'C'
    } else if c == 'd' {
        'D'
    } else if c == 'e' {
        'E'
    } else if c == 'f' {
        'F'
    } else {
        c
    }
}

/// `t` is `s` with some of its lower-case hexadecimal letters written in upper case.
pub open spec fn hex_case_variant(s: Seq<char>, t: Seq<char>) -> bool {
    &&& t.len() == s.len()
    &&& forall|k: int| 0 <= k < s.len() ==> #[trigger] t[k] == s[k] || t[k] == upcase_hex_letter(s[k])
}

/// Hexadecimal digits are read without regard to case: `A` to `F` are worth 10 to 15, as
/// `a` to `f` are, and the decimal digits 0 to 9.
pub proof fn law_hex_digits_either_case(c: char)
    ensures
        hex_digit(upcase_hex_letter(c)) == hex_digit(c),
        'a' <= c <= 'f' ==> hex_digit(c) == Some((c as u64 - 87) as u64),
        'A' <= c <= 'F' ==> hex_digit(c) == Some((c as u64 - 55) as u64),
        '0' <= c <= '9' ==> hex_digit(c) == Some((c as u64 - 48) as u64),
        hex_digit(c) is Some <==> ('0' <= c <= '9' || 'a' <= c <= 'f' || 'A' <= c <= 'F'),
{
}

proof fn lemma_find_char_case(s: Seq<char>, t: Seq<char>, i: int, hi: int, c: char)
    requires
        hex_case_variant(s, t),
        0 <= i,
        hi <= s.len(),
        !('a' <= c <= 'f'),
        !('A' <= c <= 'F'),
    ensures
        find_char(t, i, hi, c) == find_char(s, i, hi, c),
    decreases hi - i,
{
    if i < hi {
        assert(t[i] == s[i] || t[i] == upcase_hex_letter(s[i]));
        lemma_find_char_case(s, t, i + 1, hi, c);
    }
}

proof fn lemma_find_space_case(s: Seq<char>, t: Seq<char>, i: int, hi: int, ws: bool)
    requires
        hex_case_variant(s, t),
        0 <= i,
        hi <= s.len(),
    ensures
        find_space(t, i, hi, ws) == find_space(s, i, hi, ws),
    decreases hi - i,
{
    if i < hi {
        assert(t[i] == s[i] || t[i] == upcase_hex_letter(s[i]));
        lemma_find_space_case(s, t, i + 1, hi, ws);
    }
}

proof fn lemma_hex_value_case(s: Seq<char>, t: Seq<char>, lo: int, hi: int)
    requires
        hex_case_variant(s, t),
        0 <= lo,
        hi <= s.len(),
    ensures
        hex_value(t, lo, hi) == hex_value(s, lo, hi),
        all_hex(t, lo, hi) == all_hex(s, lo, hi),
    decreases hi - lo,
{
    assert forall|k: int| lo <= k < hi implies #[trigger] hex_digit(t[k]) == hex_digit(s[k]) by {
        assert(t[k] == s[k] || t[k] == upcase_hex_letter(s[k]));
        law_hex_digits_either_case(s[k]);
    }
    if lo < hi {
        lemma_hex_value_case(s, t, lo, hi - 1);
        assert(hex_digit(t[hi - 1]) == hex_digit(s[hi - 1]));
    }
    assert(all_hex(t, lo, hi) == all_hex(s, lo, hi)) by {
        if all_hex(s, lo, hi) {
            assert forall|k: int| lo <= k < hi implies (#[trigger] hex_digit(t[k])) is Some by {
                assert(hex_digit(t[k]) == hex_digit(s[k]));
            }
        }
        if all_hex(t, lo, hi) {
            assert forall|k: int| lo <= k < hi implies (#[trigger] hex_digit(s[k])) is Some by {
                assert(hex_digit(t[k]) == hex_digit(s[k]));
            }
        }
    }
}

proof fn lemma_parse_hex_case(s: Seq<char>, t: Seq<char>, lo: int, hi: int)
    requires
        hex_case_variant(s, t),
        0 <= lo,
        hi <= s.len(),
    ensures
        parse_hex(t, lo, hi) == parse_hex(s, lo, hi),
{
    if lo < hi {
        assert(t[lo] == s[lo] || t[lo] == upcase_hex_letter(s[lo]));
    }
    let lo2 = if lo < hi && s[lo] == '+' { lo + 1 } else { lo };
    lemma_hex_value_case(s, t, lo2, hi);
}

proof fn lemma_parse_line_case(s: Seq<char>, t: Seq<char>, lo: int, hi: int)
    requires
        hex_case_variant(s, t),
        0 <= lo <= hi,
        hi <= s.len(),
    ensures
        parse_line(t, lo, hi) == parse_line(s, lo, hi),
{
    lemma_find_space_case(s, t, lo, hi, false);
    lemma_find_space_bounds(s, lo, hi, false);
    let a0 = find_space(s, lo, hi, false);
    lemma_find_space_case(s, t, a0, hi, true);
    lemma_find_space_bounds(s, a0, hi, true);
    let a1 = find_space(s, a0, hi, true);
    lemma_find_space_case(s, t, a1, hi, false);
    lemma_find_space_bounds(s, a1, hi, false);
    let b0 = find_space(s, a1, hi, false);
    lemma_find_space_case(s, t, b0, hi, true);
    lemma_find_space_bounds(s, b0, hi, true);
    let b1 = find_space(s, b0, hi, true);
    if a0 < hi && b0 < hi {
        lemma_find_char_case(s, t, b0, b1, 'x');
        lemma_find_char_bounds(s, b0, b1, 'x');
        let x = find_char(s, b0, b1, 'x');
        assert(forall|k: int| b0 <= k < x ==> (#[trigger] is_ascii_char(t[k])) == is_ascii_char(s[k])) by {
            assert forall|k: int| b0 <= k < x implies (#[trigger] is_ascii_char(t[k])) == is_ascii_char(s[k]) by {
                assert(t[k] == s[k] || t[k] == upcase_hex_letter(s[k]));
            }
        }
        assert(address_part(t, b0, b1) == address_part(s, b0, b1)) by {
            if x < b1 {
                if exists|k: int| b0 <= k < x && !#[trigger] is_ascii_char(s[k]) {
                    let k = choose|k: int| b0 <= k < x && !#[trigger] is_ascii_char(s[k]);
                    assert(!is_ascii_char(t[k]));
                }
                if exists|k: int| b0 <= k < x && !#[trigger] is_ascii_char(t[k]) {
                    let k = choose|k: int| b0 <= k < x && !#[trigger] is_ascii_char(t[k]);
                    assert(!is_ascii_char(s[k]));
                }
            }
        }
        if let Some((d0, d1)) = address_part(s, b0, b1) {
            lemma_parse_hex_case(s, t, d0, d1);
        }
        assert(t[a0] == s[a0] || t[a0] == upcase_hex_letter(s[a0]));
    }
}

proof fn lemma_parse_lines_case(s: Seq<char>, t: Seq<char>, pos: int)
    requires
        hex_case_variant(s, t),
    ensures
        parse_lines(t, pos) == parse_lines(s, pos),
    decreases (if pos < s.len() { s.len() - pos } else { 0 }),
{
    if 0 <= pos < s.len() {
        let n = s.len() as int;
        lemma_find_char_case(s, t, pos, n, '\n');
        lemma_find_char_bounds(s, pos, n, '\n');
        let nl = find_char(s, pos, n, '\n');
        if nl < n && nl > pos {
            assert(t[nl - 1] == s[nl - 1] || t[nl - 1] == upcase_hex_letter(s[nl - 1]));
        }
        let end = if nl < n && nl > pos && s[nl - 1] == '\r' { nl - 1 } else { nl };
        lemma_parse_line_case(s, t, pos, end);
        lemma_parse_lines_case(s, t, nl + 1);
    }
}

/// Upper-casing lower-case hexadecimal letters anywhere in a trace does not change what it
/// reads as: the same accesses at the same addresses, or the same refusal.  In particular
/// an address written with upper-case digits is the address written with lower-case ones.
pub proof fn law_trace_reads_hex_in_either_case(s: Seq<char>, t: Seq<char>)
    requires
        hex_case_variant(s, t),
    ensures
        parse_lines(t, 0) == parse_lines(s, 0),
        parse_lines(s.map_values(|c: char| upcase_hex_letter(c)), 0) == parse_lines(s, 0),
{
    lemma_parse_lines_case(s, t, 0);
    let u = s.map_values(|c: char| upcase_hex_letter(c));
    assert(hex_case_variant(s, u));
    lemma_parse_lines_case(s, u, 0);
}

} // verus!
