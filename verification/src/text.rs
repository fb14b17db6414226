//! Character-level string utilities: searching, splitting, trimming,
//! comparing, and decimal parsing, with exact sequence-level contracts.

use vstd::prelude::*;

verus! {

/// Index of the last occurrence of `c` in `s`, or `-1` if `c` does not occur.
pub open spec fn last_index_of(s: Seq<char>, c: char) -> int
    decreases s.len(),
{
    if s.len() == 0 {
        -1
    } else if s[s.len() - 1] == c {
        s.len() - 1
    } else {
        last_index_of(s.drop_last(), c)
    }
}

pub proof fn lemma_last_index_bounds(s: Seq<char>, c: char)
    ensures
        -1 <= last_index_of(s, c) < s.len(),
        last_index_of(s, c) >= 0 ==> s[last_index_of(s, c)] == c,
    decreases s.len(),
{
    if s.len() > 0 && s[s.len() - 1] != c {
        lemma_last_index_bounds(s.drop_last(), c);
    }
}

/// A position holding `c` with no occurrence of `c` after it is the last index.
pub proof fn lemma_last_index_witness(s: Seq<char>, c: char, k: int)
    requires
        0 <= k < s.len(),
        s[k] == c,
        forall|j: int| k < j < s.len() ==> s[j] != c,
    ensures
        last_index_of(s, c) == k,
    decreases s.len(),
{
    if s.len() - 1 > k {
        lemma_last_index_witness(s.drop_last(), c, k);
    }
}

pub proof fn lemma_last_index_none(s: Seq<char>, c: char)
    requires
        forall|j: int| 0 <= j < s.len() ==> s[j] != c,
    ensures
        last_index_of(s, c) == -1,
    decreases s.len(),
{
    if s.len() > 0 {
        lemma_last_index_none(s.drop_last(), c);
    }
}

/// Index of the first occurrence of `c` in `s`, or `-1` if `c` does not occur.
pub open spec fn first_index_of(s: Seq<char>, c: char) -> int
    decreases s.len(),
{
    if s.len() == 0 {
        -1
    } else if s[0] == c {
        0
    } else if first_index_of(s.subrange(1, s.len() as int), c) == -1 {
        -1
    } else {
        1 + first_index_of(s.subrange(1, s.len() as int), c)
    }
}

pub proof fn lemma_first_index_bounds(s: Seq<char>, c: char)
    ensures
        -1 <= first_index_of(s, c) < s.len(),
        first_index_of(s, c) >= 0 ==> s[first_index_of(s, c)] == c,
    decreases s.len(),
{
    if s.len() > 0 && s[0] != c {
        lemma_first_index_bounds(s.subrange(1, s.len() as int), c);
    }
}

pub proof fn lemma_first_index_witness(s: Seq<char>, c: char, k: int)
    requires
        0 <= k < s.len(),
        s[k] == c,
        forall|j: int| 0 <= j < k ==> s[j] != c,
    ensures
        first_index_of(s, c) == k,
    decreases s.len(),
{
    if k > 0 {
        let t = s.subrange(1, s.len() as int);
        assert(forall|j: int| 0 <= j < k - 1 ==> t[j] == s[j + 1] && s[j + 1] != c);
        lemma_first_index_witness(t, c, k - 1);
    }
}

pub proof fn lemma_first_index_none(s: Seq<char>, c: char)
    requires
        forall|j: int| 0 <= j < s.len() ==> s[j] != c,
    ensures
        first_index_of(s, c) == -1,
    decreases s.len(),
{
    if s.len() > 0 {
        lemma_first_index_none(s.subrange(1, s.len() as int), c);
    }
}

pub proof fn lemma_first_index_none_from_contains(s: Seq<char>, c: char)
    requires
        !s.contains(c),
    ensures
        first_index_of(s, c) == -1,
{
    assert(forall|j: int| 0 <= j < s.len() ==> s[j] != c);
    lemma_first_index_none(s, c);
}

/// Find the last occurrence of a character, scanning from the right.
pub fn rfind_char(s: &str, c: char) -> (r: Option<usize>)
    ensures
        match r {
            Some(i) => last_index_of(s@, c) == i as int,
            None => last_index_of(s@, c) == -1,
        },
{
    let n: usize = s.unicode_len();
    let mut i: usize = n;
    while i > 0
        invariant
            0 <= i <= n,
            n == s@.len(),
            forall|j: int| i <= j < n ==> s@[j] != c,
        decreases i,
    {
        i = i - 1;
        if s.get_char(i) == c {
            proof {
                lemma_last_index_witness(s@, c, i as int);
            }
            return Some(i);
        }
    }
    proof {
        lemma_last_index_none(s@, c);
    }
    None
}

/// Find the first occurrence of a character, scanning from the left.
pub fn find_char(s: &str, c: char) -> (r: Option<usize>)
    ensures
        match r {
            Some(i) => first_index_of(s@, c) == i as int,
            None => first_index_of(s@, c) == -1,
        },
{
    let n: usize = s.unicode_len();
    let mut i: usize = 0;
    while i < n
        invariant
            0 <= i <= n,
            n == s@.len(),
            forall|j: int| 0 <= j < i ==> s@[j] != c,
        decreases n - i,
    {
        if s.get_char(i) == c {
            proof {
                lemma_first_index_witness(s@, c, i as int);
            }
            return Some(i);
        }
        i = i + 1;
    }
    proof {
        lemma_first_index_none(s@, c);
    }
    None
}

/// Character-for-character equality of two string slices.
pub fn str_equal(a: &str, b: &str) -> (r: bool)
    ensures
        r == (a@ == b@),
{
    let na: usize = a.unicode_len();
    let nb: usize = b.unicode_len();
    if na != nb {
        return false;
    }
    let mut i: usize = 0;
    while i < na
        invariant
            0 <= i <= na,
            na == a@.len(),
            na == b@.len(),
            forall|j: int| 0 <= j < i ==> a@[j] == b@[j],
        decreases na - i,
    {
        if a.get_char(i) != b.get_char(i) {
            return false;
        }
        i = i + 1;
    }
    proof {
        assert(a@ =~= b@);
    }
    true
}

/// `p` is a prefix of `s`.
pub open spec fn starts_with_view(s: Seq<char>, p: Seq<char>) -> bool {
    p.len() <= s.len() && s.subrange(0, p.len() as int) == p
}

pub fn str_starts_with(s: &str, p: &str) -> (r: bool)
    ensures
        r == starts_with_view(s@, p@),
{
    let ns: usize = s.unicode_len();
    let np: usize = p.unicode_len();
    if np > ns {
        proof {
            assert(!starts_with_view(s@, p@));
        }
        return false;
    }
    let mut i: usize = 0;
    while i < np
        invariant
            0 <= i <= np <= ns,
            ns == s@.len(),
            np == p@.len(),
            forall|j: int| 0 <= j < i ==> s@[j] == p@[j],
        decreases np - i,
    {
        if s.get_char(i) != p.get_char(i) {
            proof {
                assert(s@.subrange(0, p@.len() as int)[i as int] != p@[i as int]);
            }
            return false;
        }
        i = i + 1;
    }
    proof {
        assert(s@.subrange(0, p@.len() as int) =~= p@);
    }
    true
}

/// Splitting `s` at every occurrence of `c`; always non-empty, and empty
/// fields are kept, as with the standard split.
pub open spec fn split_char(s: Seq<char>, c: char) -> Seq<Seq<char>>
    decreases s.len(),
{
    let f = first_index_of(s, c);
    if f < 0 {
        seq![s]
    } else {
        seq![s.subrange(0, f)].add(split_char(skip_via_bounds(s, f + 1, c), c))
    }
}

/// Helper giving `split_char` a well-founded recursion: the tail after the
/// first occurrence of `c`.
pub open spec fn skip_via_bounds(s: Seq<char>, from: int, c: char) -> Seq<char> {
    if 0 <= from <= s.len() {
        s.subrange(from, s.len() as int)
    } else {
        Seq::empty()
    }
}

pub proof fn lemma_split_char_unfold(s: Seq<char>, c: char)
    ensures
        first_index_of(s, c) < 0 ==> split_char(s, c) == seq![s],
        first_index_of(s, c) >= 0 ==> split_char(s, c) == seq![
            s.subrange(0, first_index_of(s, c)),
        ].add(split_char(s.subrange(first_index_of(s, c) + 1, s.len() as int), c)),
{
    let f = first_index_of(s, c);
    lemma_first_index_bounds(s, c);
    if f >= 0 {
        assert(skip_via_bounds(s, f + 1, c) == s.subrange(f + 1, s.len() as int));
    }
}

/// Split a string slice at every occurrence of a character.
pub fn split_str<'a>(s: &'a str, c: char) -> (r: Vec<&'a str>)
    ensures
        r@.map_values(|t: &str| t@) == split_char(s@, c),
        r@.len() >= 1,
{
    let n: usize = s.unicode_len();
    let mut parts: Vec<&'a str> = Vec::new();
    let mut start: usize = 0;
    let mut i: usize = 0;
    proof {
        assert(s@.subrange(0, n as int) =~= s@);
        assert(parts@.map_values(|t: &str| t@).add(split_char(s@, c)) =~= split_char(s@, c));
    }
    while i < n
        invariant
            0 <= start <= i <= n,
            n == s@.len(),
            forall|j: int| start <= j < i ==> s@[j] != c,
            split_char(s@, c) == parts@.map_values(|t: &str| t@).add(
                split_char(s@.subrange(start as int, n as int), c),
            ),
        decreases n - i,
    {
        if s.get_char(i) == c {
            let piece = s.substring_char(start, i);
            proof {
                let tail = s@.subrange(start as int, n as int);
                lemma_first_index_witness(tail, c, i - start);
                lemma_split_char_unfold(tail, c);
                assert(tail.subrange(0, i - start) =~= s@.subrange(start as int, i as int));
                assert(tail.subrange(i - start + 1, tail.len() as int) =~= s@.subrange(
                    i + 1,
                    n as int,
                ));
                assert(parts@.map_values(|t: &str| t@).add(seq![piece@]) =~= parts@.push(
                    piece,
                ).map_values(|t: &str| t@));
                assert(parts@.map_values(|t: &str| t@).add(
                    seq![tail.subrange(0, i - start)].add(
                        split_char(s@.subrange(i + 1, n as int), c),
                    ),
                ) =~= parts@.push(piece).map_values(|t: &str| t@).add(
                    split_char(s@.subrange(i + 1, n as int), c),
                ));
            }
            parts.push(piece);
            start = i + 1;
        }
        i = i + 1;
    }
    let piece = s.substring_char(start, n);
    proof {
        let tail = s@.subrange(start as int, n as int);
        lemma_first_index_none(tail, c);
        lemma_split_char_unfold(tail, c);
        assert(piece@ == tail);
        assert(parts@.map_values(|t: &str| t@).add(seq![piece@]) =~= parts@.push(
            piece,
        ).map_values(|t: &str| t@));
    }
    parts.push(piece);
    parts
}

/// In `x ++ [c] ++ y` with no `c` in `y`, the last `c` is the separator.
pub proof fn lemma_last_index_concat(x: Seq<char>, c: char, y: Seq<char>)
    requires
        !y.contains(c),
    ensures
        last_index_of(x + seq![c] + y, c) == x.len(),
        (x + seq![c] + y).subrange(0, x.len() as int) == x,
        (x + seq![c] + y).subrange(x.len() as int + 1, x.len() as int + 1 + y.len() as int) == y,
{
    let s = x + seq![c] + y;
    assert(s[x.len() as int] == c);
    assert forall|j: int| x.len() < j < s.len() implies s[j] != c by {
        assert(s[j] == y[j - x.len() - 1]);
        assert(!(exists|i: int| 0 <= i < y.len() && y[i] == c));
    }
    lemma_last_index_witness(s, c, x.len() as int);
    assert(s.subrange(0, x.len() as int) =~= x);
    assert(s.subrange(x.len() as int + 1, x.len() as int + 1 + y.len() as int) =~= y);
}

/// In `x ++ [c] ++ y` with no `c` in `x`, the first `c` is the separator.
pub proof fn lemma_first_index_concat(x: Seq<char>, c: char, y: Seq<char>)
    requires
        !x.contains(c),
    ensures
        first_index_of(x + seq![c] + y, c) == x.len(),
        (x + seq![c] + y).subrange(0, x.len() as int) == x,
        (x + seq![c] + y).subrange(x.len() as int + 1, x.len() as int + 1 + y.len() as int) == y,
{
    let s = x + seq![c] + y;
    assert(s[x.len() as int] == c);
    assert forall|j: int| 0 <= j < x.len() implies s[j] != c by {
        assert(s[j] == x[j]);
        assert(!(exists|i: int| 0 <= i < x.len() && x[i] == c));
    }
    lemma_first_index_witness(s, c, x.len() as int);
    assert(s.subrange(0, x.len() as int) =~= x);
    assert(s.subrange(x.len() as int + 1, x.len() as int + 1 + y.len() as int) =~= y);
}

/// Joining with a separator that appears in neither left part is injective.
pub proof fn lemma_sep_injective(x1: Seq<char>, y1: Seq<char>, x2: Seq<char>, y2: Seq<char>, c: char)
    requires
        !x1.contains(c),
        !x2.contains(c),
        x1 + seq![c] + y1 == x2 + seq![c] + y2,
    ensures
        x1 == x2,
        y1 == y2,
{
    lemma_first_index_concat(x1, c, y1);
    lemma_first_index_concat(x2, c, y2);
    let s = x1 + seq![c] + y1;
    assert(s == x2 + seq![c] + y2);
    assert(first_index_of(s, c) == x1.len());
    assert(first_index_of(s, c) == x2.len());
    assert(s.subrange(0, x1.len() as int) == x1);
    assert(s.subrange(0, x2.len() as int) == x2);
    assert(s.subrange(x1.len() as int + 1, x1.len() as int + 1 + y1.len() as int) == y1);
    assert(s.subrange(x2.len() as int + 1, x2.len() as int + 1 + y2.len() as int) == y2);
    assert(s.len() == x1.len() + 1 + y1.len());
    assert(s.len() == x2.len() + 1 + y2.len());
}

pub open spec fn is_ws(c: char) -> bool {
    c == ' ' || c == '\t' || c == '\r' || c == '\n'
}

/// Index of the first non-whitespace character, or `s.len()` if all blank.
pub open spec fn first_non_ws(s: Seq<char>) -> int
    decreases s.len(),
{
    if s.len() == 0 {
        0
    } else if !is_ws(s[0]) {
        0
    } else {
        1 + first_non_ws(s.subrange(1, s.len() as int))
    }
}

/// Index of the last non-whitespace character, or `-1` if all blank.
pub open spec fn last_non_ws(s: Seq<char>) -> int
    decreases s.len(),
{
    if s.len() == 0 {
        -1
    } else if !is_ws(s[s.len() - 1]) {
        s.len() - 1
    } else {
        last_non_ws(s.drop_last())
    }
}

/// `s` with leading and trailing whitespace removed.
pub open spec fn trim_view(s: Seq<char>) -> Seq<char> {
    if last_non_ws(s) < 0 {
        Seq::empty()
    } else {
        s.subrange(first_non_ws(s), last_non_ws(s) + 1)
    }
}

pub proof fn lemma_first_non_ws_witness(s: Seq<char>, k: int)
    requires
        0 <= k < s.len(),
        !is_ws(s[k]),
        forall|j: int| 0 <= j < k ==> is_ws(s[j]),
    ensures
        first_non_ws(s) == k,
    decreases s.len(),
{
    if k > 0 {
        let t = s.subrange(1, s.len() as int);
        assert(forall|j: int| 0 <= j < k - 1 ==> t[j] == s[j + 1] && is_ws(s[j + 1]));
        lemma_first_non_ws_witness(t, k - 1);
    }
}

pub proof fn lemma_last_non_ws_witness(s: Seq<char>, k: int)
    requires
        0 <= k < s.len(),
        !is_ws(s[k]),
        forall|j: int| k < j < s.len() ==> is_ws(s[j]),
    ensures
        last_non_ws(s) == k,
    decreases s.len(),
{
    if s.len() - 1 > k {
        lemma_last_non_ws_witness(s.drop_last(), k);
    }
}

pub proof fn lemma_all_ws(s: Seq<char>)
    requires
        forall|j: int| 0 <= j < s.len() ==> is_ws(s[j]),
    ensures
        last_non_ws(s) == -1,
    decreases s.len(),
{
    if s.len() > 0 {
        lemma_all_ws(s.drop_last());
    }
}

fn is_ws_exec(c: char) -> (r: bool)
    ensures
        r == is_ws(c),
{
    c == ' ' || c == '\t' || c == '\r' || c == '\n'
}

/// Remove leading and trailing whitespace.
pub fn trim_str<'a>(s: &'a str) -> (r: &'a str)
    ensures
        r@ == trim_view(s@),
{
    let n: usize = s.unicode_len();
    let mut lo: usize = 0;
    while lo < n && is_ws_exec(s.get_char(lo))
        invariant
            0 <= lo <= n,
            n == s@.len(),
            forall|j: int| 0 <= j < lo ==> is_ws(s@[j]),
        decreases n - lo,
    {
        lo = lo + 1;
    }
    if lo == n {
        proof {
            lemma_all_ws(s@);
        }
        let r = s.substring_char(0, 0);
        proof {
            assert(r@ =~= trim_view(s@));
        }
        return r;
    }
    let mut hi: usize = n;
    while hi > lo
        invariant
            lo <= hi <= n,
            n == s@.len(),
            lo < n,
            !is_ws(s@[lo as int]),
            forall|j: int| 0 <= j < lo ==> is_ws(s@[j]),
            forall|j: int| hi <= j < n ==> is_ws(s@[j]),
        decreases hi,
    {
        if !is_ws_exec(s.get_char(hi - 1)) {
            proof {
                lemma_first_non_ws_witness(s@, lo as int);
                lemma_last_non_ws_witness(s@, hi - 1);
            }
            return s.substring_char(lo, hi);
        }
        hi = hi - 1;
    }
    proof {
        assert(is_ws(s@[lo as int]));
    }
    s.substring_char(lo, lo)
}

pub open spec fn is_digit(c: char) -> bool {
    '0' <= c && c <= '9'
}

pub open spec fn digit_val(c: char) -> int {
    c as int - '0' as int
}

/// Value of a string of decimal digits, most significant first.
pub open spec fn digits_val(s: Seq<char>) -> int
    decreases s.len(),
{
    if s.len() == 0 {
        0
    } else {
        digits_val(s.drop_last()) * 10 + digit_val(s[s.len() - 1])
    }
}

pub open spec fn all_digits(s: Seq<char>) -> bool {
    forall|j: int| 0 <= j < s.len() ==> is_digit(s[j])
}

/// The digits of `s` after an optional leading sign.
pub open spec fn int_str_body(s: Seq<char>) -> Seq<char> {
    if s.len() > 0 && (s[0] == '+' || s[0] == '-') {
        s.subrange(1, s.len() as int)
    } else {
        s
    }
}

pub open spec fn int_str_negative(s: Seq<char>) -> bool {
    s.len() > 0 && s[0] == '-'
}

/// `s` is a decimal integer within the `i32` range, as the standard library
/// accepts one: an optional sign followed by at least one digit.
pub open spec fn is_i32_str(s: Seq<char>) -> bool {
    let body = int_str_body(s);
    body.len() > 0 && all_digits(body) && (if int_str_negative(s) {
        digits_val(body) <= 0x8000_0000
    } else {
        digits_val(body) <= 0x7fff_ffff
    })
}

pub open spec fn i32_str_val(s: Seq<char>) -> int {
    if int_str_negative(s) {
        -digits_val(int_str_body(s))
    } else {
        digits_val(int_str_body(s))
    }
}

proof fn lemma_digits_val_bounds(s: Seq<char>)
    requires
        all_digits(s),
    ensures
        digits_val(s) >= 0,
    decreases s.len(),
{
    if s.len() > 0 {
        assert(all_digits(s.drop_last()));
        lemma_digits_val_bounds(s.drop_last());
    }
}

/// Parse a decimal integer, as `str::parse::<i32>` does: `None` exactly on
/// strings that are not a signed decimal number in range.
pub fn parse_i32(s: &str) -> (r: Option<i32>)
    ensures
        match r {
            Some(v) => is_i32_str(s@) && v as int == i32_str_val(s@),
            None => !is_i32_str(s@),
        },
{
    let n: usize = s.unicode_len();
    if n == 0 {
        return None;
    }
    let c0 = s.get_char(0);
    let negative = c0 == '-';
    let start: usize = if c0 == '-' || c0 == '+' {
        1
    } else {
        0
    };
    if start == n {
        proof {
            assert(int_str_body(s@).len() == 0);
        }
        return None;
    }
    let ghost body = int_str_body(s@);
    proof {
        assert(body =~= s@.subrange(start as int, n as int));
    }
    let mut mag: u64 = 0;
    let mut i: usize = start;
    while i < n
        invariant
            start <= i <= n,
            n == s@.len(),
            start < n,
            body == int_str_body(s@),
            body == s@.subrange(start as int, n as int),
            negative == int_str_negative(s@),
            all_digits(body.subrange(0, i - start)),
            mag as int == digits_val(body.subrange(0, i - start)),
            mag <= 0x8000_0000,
        decreases n - i,
    {
        let c = s.get_char(i);
        if !('0' <= c && c <= '9') {
            proof {
                assert(c == s@[i as int]);
                assert(!is_digit(c));
                assert(body[i - start] == s@[i as int]);
                assert(!is_digit(body[i - start]));
                assert(!all_digits(body));
                assert(!is_i32_str(s@));
            }
            return None;
        }
        let d: u64 = (c as u32 - '0' as u32) as u64;
        let next: u64 = mag * 10 + d;
        proof {
            let pre = body.subrange(0, i - start);
            let post = body.subrange(0, i + 1 - start);
            assert(post.drop_last() =~= pre);
            assert(post[post.len() - 1] == s@[i as int]);
            assert(d as int == digit_val(s@[i as int]));
            assert(digits_val(post) == mag as int * 10 + d as int);
        }
        if next > 0x8000_0000 {
            proof {
                if all_digits(body) {
                    lemma_digits_prefix_monotonic(body, i + 1 - start);
                    assert(digits_val(body) >= digits_val(body.subrange(0, i + 1 - start)));
                    assert(digits_val(body) > 0x8000_0000);
                }
                assert(!is_i32_str(s@));
            }
            return None;
        }
        mag = next;
        i = i + 1;
    }
    proof {
        assert(body.subrange(0, n - start) =~= body);
    }
    if negative {
        if mag > 0x8000_0000 {
            return None;
        }
        let v: i64 = -(mag as i64);
        Some(v as i32)
    } else {
        if mag > 0x7fff_ffff {
            return None;
        }
        Some(mag as i32)
    }
}

/// A digit string's value bounds the value of each of its prefixes.
proof fn lemma_digits_prefix_monotonic(s: Seq<char>, k: int)
    requires
        all_digits(s),
        0 <= k <= s.len(),
    ensures
        digits_val(s) >= digits_val(s.subrange(0, k)),
    decreases s.len() - k,
{
    if k == s.len() {
        assert(s.subrange(0, k) =~= s);
    } else {
        let p = s.subrange(0, k + 1);
        let q = s.subrange(0, k);
        assert(p.drop_last() =~= q);
        assert(all_digits(q));
        lemma_digits_val_bounds(q);
        assert(p[k] == s[k]);
        assert(is_digit(s[k]));
        assert(digits_val(p) == digits_val(q) * 10 + digit_val(p[k]));
        assert(digits_val(p) >= digits_val(q));
        lemma_digits_prefix_monotonic(s, k + 1);
    }
}

/// Lexicographic order on character sequences, by code point.
pub open spec fn lex_le(a: Seq<char>, b: Seq<char>) -> bool
    decreases a.len(),
{
    if a.len() == 0 {
        true
    } else if b.len() == 0 {
        false
    } else if a[0] != b[0] {
        a[0] < b[0]
    } else {
        lex_le(a.subrange(1, a.len() as int), b.subrange(1, b.len() as int))
    }
}

pub proof fn lemma_lex_le_total(a: Seq<char>, b: Seq<char>)
    ensures
        lex_le(a, b) || lex_le(b, a),
    decreases a.len(),
{
    if a.len() > 0 && b.len() > 0 {
        if a[0] == b[0] {
            lemma_lex_le_total(a.subrange(1, a.len() as int), b.subrange(1, b.len() as int));
        }
    }
}

pub proof fn lemma_lex_le_trans(a: Seq<char>, b: Seq<char>, c: Seq<char>)
    requires
        lex_le(a, b),
        lex_le(b, c),
    ensures
        lex_le(a, c),
    decreases a.len(),
{
    if a.len() > 0 && b.len() > 0 && c.len() > 0 {
        if a[0] == b[0] && b[0] == c[0] {
            lemma_lex_le_trans(
                a.subrange(1, a.len() as int),
                b.subrange(1, b.len() as int),
                c.subrange(1, c.len() as int),
            );
        }
    }
}

pub proof fn lemma_lex_le_antisym(a: Seq<char>, b: Seq<char>)
    requires
        lex_le(a, b),
        lex_le(b, a),
    ensures
        a == b,
    decreases a.len(),
{
    if a.len() == 0 {
        assert(b.len() == 0);
        assert(a =~= b);
    } else {
        assert(b.len() > 0);
        assert(a[0] == b[0]);
        let ta = a.subrange(1, a.len() as int);
        let tb = b.subrange(1, b.len() as int);
        lemma_lex_le_antisym(ta, tb);
        assert(a.len() == b.len());
        assert forall|i: int| 0 <= i < a.len() implies a[i] == b[i] by {
            if i > 0 {
                assert(a[i] == ta[i - 1]);
                assert(b[i] == tb[i - 1]);
            }
        }
        assert(a =~= b);
    }
}

/// Lexicographic comparison of string slices, by code point.
pub fn str_le(a: &str, b: &str) -> (r: bool)
    ensures
        r == lex_le(a@, b@),
{
    let na: usize = a.unicode_len();
    let nb: usize = b.unicode_len();
    let mut i: usize = 0;
    proof {
        assert(a@.subrange(0, na as int) =~= a@);
        assert(b@.subrange(0, nb as int) =~= b@);
    }
    while i < na && i < nb
        invariant
            0 <= i <= na,
            0 <= i <= nb,
            na == a@.len(),
            nb == b@.len(),
            lex_le(a@, b@) == lex_le(
                a@.subrange(i as int, na as int),
                b@.subrange(i as int, nb as int),
            ),
        decreases na - i,
    {
        let ca = a.get_char(i);
        let cb = b.get_char(i);
        if ca != cb {
            proof {
                assert(a@.subrange(i as int, na as int)[0] == ca);
                assert(b@.subrange(i as int, nb as int)[0] == cb);
            }
            return ca < cb;
        }
        proof {
            let sa = a@.subrange(i as int, na as int);
            let sb = b@.subrange(i as int, nb as int);
            assert(sa[0] == sb[0]);
            assert(sa.subrange(1, sa.len() as int) =~= a@.subrange(i + 1, na as int));
            assert(sb.subrange(1, sb.len() as int) =~= b@.subrange(i + 1, nb as int));
        }
        i = i + 1;
    }
    proof {
        let sa = a@.subrange(i as int, na as int);
        let sb = b@.subrange(i as int, nb as int);
        if i == na {
            assert(sa.len() == 0);
            assert(lex_le(sa, sb));
        } else {
            assert(sb.len() == 0 && sa.len() > 0);
            assert(!lex_le(sa, sb));
        }
    }
    na <= nb
}

} // verus!
