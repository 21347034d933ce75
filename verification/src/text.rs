use vstd::prelude::*;

verus! {

/// The characters of a string slice, in order.
pub fn chars_of(s: &str) -> (r: Vec<char>)
    ensures
        r@ == s@,
{
    let mut r: Vec<char> = Vec::new();
    for c in it: s.chars()
        invariant
            r@ == it.seq().take(it.index() as int),
    {
        r.push(c);
        assert(r@ =~= it.seq().take(it.index() + 1));
    }
    assert(r@ =~= s@);
    r
}


/// The Unicode `White_Space` characters.
pub open spec fn is_white_space(c: char) -> bool {
    let v = c as u32;
    ||| 9 <= v <= 13
    ||| v == 32
    ||| v == 0x85
    ||| v == 0xA0
    ||| v == 0x1680
    ||| 0x2000 <= v <= 0x200A
    ||| v == 0x2028
    ||| v == 0x2029
    ||| v == 0x202F
    ||| v == 0x205F
    ||| v == 0x3000
}

/// `s` without its leading white space.
pub open spec fn trim_start_spec(s: Seq<char>) -> Seq<char>
    decreases s.len(),
{
    if s.len() > 0 && is_white_space(s[0]) {
        trim_start_spec(s.drop_first())
    } else {
        s
    }
}

/// `s` without its trailing white space.
pub open spec fn trim_end_spec(s: Seq<char>) -> Seq<char>
    decreases s.len(),
{
    if s.len() > 0 && is_white_space(s.last()) {
        trim_end_spec(s.drop_last())
    } else {
        s
    }
}

/// `s` without its leading and trailing white space.
pub open spec fn trim_spec(s: Seq<char>) -> Seq<char> {
    trim_end_spec(trim_start_spec(s))
}

/// Whether `c` is white space.
pub fn is_white_space_char(c: char) -> (r: bool)
    ensures
        r == is_white_space(c),
{
    let v = c as u32;
    (9 <= v && v <= 13) || v == 32 || v == 0x85 || v == 0xA0 || v == 0x1680 || (0x2000 <= v && v
        <= 0x200A) || v == 0x2028 || v == 0x2029 || v == 0x202F || v == 0x205F || v == 0x3000
}

/// The bounds of `s[lo..hi]` once its leading and trailing white space is cut off.
pub fn trim_range(s: &Vec<char>, lo: usize, hi: usize) -> (r: (usize, usize))
    requires
        lo <= hi <= s.len(),
    ensures
        lo <= r.0 <= r.1 <= hi,
        s@.subrange(r.0 as int, r.1 as int) == trim_spec(s@.subrange(lo as int, hi as int)),
{
    let mut a = lo;
    while a < hi && is_white_space_char(s[a])
        invariant
            lo <= a <= hi <= s.len(),
            trim_start_spec(s@.subrange(lo as int, hi as int)) == trim_start_spec(
                s@.subrange(a as int, hi as int),
            ),
        decreases hi - a,
    {
        assert(s@.subrange(a as int, hi as int).drop_first() =~= s@.subrange(a + 1, hi as int));
        a = a + 1;
    }
    assert(trim_start_spec(s@.subrange(a as int, hi as int)) == s@.subrange(a as int, hi as int));
    let mut b = hi;
    while b > a && is_white_space_char(s[b - 1])
        invariant
            lo <= a <= b <= hi <= s.len(),
            trim_end_spec(s@.subrange(a as int, hi as int)) == trim_end_spec(
                s@.subrange(a as int, b as int),
            ),
        decreases b - a,
    {
        assert(s@.subrange(a as int, b as int).drop_last() =~= s@.subrange(a as int, b - 1));
        b = b - 1;
    }
    assert(trim_end_spec(s@.subrange(a as int, b as int)) == s@.subrange(a as int, b as int));
    (a, b)
}

/// Offset of the first occurrence of `sep` in `s`, or -1 when there is none.
pub open spec fn find_sep(s: Seq<char>, sep: Seq<char>) -> int
    decreases s.len(),
{
    if sep.len() == 0 || s.len() < sep.len() {
        -1
    } else if s.take(sep.len() as int) == sep {
        0
    } else {
        let r = find_sep(s.drop_first(), sep);
        if r < 0 {
            -1
        } else {
            r + 1
        }
    }
}

/// A found separator lies inside `s`.
pub proof fn lemma_find_sep_bound(s: Seq<char>, sep: Seq<char>)
    ensures
        find_sep(s, sep) >= -1,
        find_sep(s, sep) >= 0 ==> sep.len() > 0 && find_sep(s, sep) + sep.len() <= s.len(),
    decreases s.len(),
{
    if sep.len() == 0 || s.len() < sep.len() {
    } else if s.take(sep.len() as int) == sep {
    } else {
        lemma_find_sep_bound(s.drop_first(), sep);
    }
}

/// The pieces of `s` between the non-overlapping occurrences of `sep`, scanning from the left.
pub open spec fn split_on(s: Seq<char>, sep: Seq<char>) -> Seq<Seq<char>>
    decreases s.len(),
{
    let k = find_sep(s, sep);
    if k < 0 {
        seq![s]
    } else {
        proof {
            lemma_find_sep_bound(s, sep);
        }
        seq![s.take(k)] + split_on(s.skip(k + sep.len()), sep)
    }
}

/// Splitting always gives at least one piece, and at least two when `sep` occurs.
pub proof fn lemma_split_len(s: Seq<char>, sep: Seq<char>)
    ensures
        split_on(s, sep).len() >= 1,
        find_sep(s, sep) >= 0 ==> split_on(s, sep).len() >= 2,
    decreases s.len(),
{
    lemma_find_sep_bound(s, sep);
    let k = find_sep(s, sep);
    if k >= 0 {
        lemma_split_len(s.skip(k + sep.len()), sep);
    }
}

/// Whether `sep` occurs in `t` starting at offset `q`.
pub open spec fn occurs_at(t: Seq<char>, sep: Seq<char>, q: int) -> bool {
    0 <= q && q + sep.len() <= t.len() && t.subrange(q, q + sep.len()) == sep
}

/// The first occurrence of `sep` is at `k` when no earlier position matches
/// (and there is none when `k` leaves no room for one).
proof fn lemma_find_sep_at(t: Seq<char>, sep: Seq<char>, k: int)
    requires
        sep.len() > 0,
        0 <= k,
        forall|q: int| 0 <= q < k ==> !#[trigger] occurs_at(t, sep, q),
        k + sep.len() <= t.len() ==> occurs_at(t, sep, k),
    ensures
        k + sep.len() <= t.len() ==> find_sep(t, sep) == k,
        k + sep.len() > t.len() ==> find_sep(t, sep) == -1,
    decreases k,
{
    if t.len() < sep.len() {
    } else if k == 0 {
        assert(t.take(sep.len() as int) =~= t.subrange(0, sep.len() as int));
    } else {
        assert(t.take(sep.len() as int) =~= t.subrange(0, sep.len() as int));
        let u = t.drop_first();
        assert(!occurs_at(t, sep, 0));
        assert forall|q: int| 0 <= q < k - 1 implies !#[trigger] occurs_at(u, sep, q) by {
            assert(!occurs_at(t, sep, q + 1));
            if q + sep.len() <= u.len() {
                assert(u.subrange(q, q + sep.len()) =~= t.subrange(q + 1, q + 1 + sep.len()));
            }
        }
        if k - 1 + sep.len() <= u.len() {
            assert(u.subrange(k - 1, k - 1 + sep.len()) =~= t.subrange(k, k + sep.len()));
        }
        lemma_find_sep_at(u, sep, k - 1);
    }
}

/// Whether `sep` occurs in `s` at offset `p`.
fn matches_at(s: &Vec<char>, p: usize, sep: &[char]) -> (r: bool)
    requires
        p + sep.len() <= s.len(),
    ensures
        r == (s@.subrange(p as int, p + sep.len()) == sep@),
{
    let mut i: usize = 0;
    while i < sep.len()
        invariant
            i <= sep.len(),
            p + sep.len() <= s.len(),
            forall|j: int| 0 <= j < i ==> s@[p + j] == sep@[j],
        decreases sep.len() - i,
    {
        if s[p + i] != sep[i] {
            assert(s@.subrange(p as int, p + sep.len())[i as int] != sep@[i as int]);
            return false;
        }
        i = i + 1;
    }
    assert(s@.subrange(p as int, p + sep.len()) =~= sep@);
    true
}

/// The first offset at or after `lo` where `sep` occurs within `s[lo..hi]`.
pub fn find_in(s: &Vec<char>, lo: usize, hi: usize, sep: &[char]) -> (r: Option<usize>)
    requires
        lo <= hi <= s.len(),
        sep.len() > 0,
    ensures
        match r {
            Some(p) => lo <= p && p + sep.len() <= hi && find_sep(
                s@.subrange(lo as int, hi as int),
                sep@,
            ) == p - lo,
            None => find_sep(s@.subrange(lo as int, hi as int), sep@) == -1,
        },
{
    let ghost t = s@.subrange(lo as int, hi as int);
    let mut p = lo;
    while p <= hi && sep.len() <= hi - p
        invariant
            lo <= p,
            lo <= hi <= s.len(),
            sep.len() > 0,
            t == s@.subrange(lo as int, hi as int),
            forall|q: int| 0 <= q < p - lo ==> !#[trigger] occurs_at(t, sep@, q),
        decreases hi + 1 - p,
    {
        let m = matches_at(s, p, sep);
        assert(t.subrange(p - lo, p - lo + sep.len()) =~= s@.subrange(p as int, p + sep.len()));
        if m {
            proof {
                lemma_find_sep_at(t, sep@, p - lo);
            }
            return Some(p);
        }
        p = p + 1;
    }
    proof {
        lemma_find_sep_at(t, sep@, p - lo);
    }
    None
}

/// The texts that a list of ranges of `s` stand for.
pub open spec fn range_views(s: Seq<char>, r: Seq<(usize, usize)>) -> Seq<Seq<char>> {
    r.map_values(|x: (usize, usize)| s.subrange(x.0 as int, x.1 as int))
}

/// Every range lies within `lo .. hi`.
pub open spec fn ranges_within(r: Seq<(usize, usize)>, lo: int, hi: int) -> bool {
    forall|i: int| 0 <= i < r.len() ==> lo <= #[trigger] r[i].0 <= r[i].1 <= hi
}

/// Splits `s[lo..hi]` at the occurrences of `sep`, giving the pieces as ranges of `s`.
pub fn split_range(s: &Vec<char>, lo: usize, hi: usize, sep: &[char]) -> (r: Vec<(usize, usize)>)
    requires
        lo <= hi <= s.len(),
        sep.len() > 0,
    ensures
        ranges_within(r@, lo as int, hi as int),
        range_views(s@, r@) == split_on(s@.subrange(lo as int, hi as int), sep@),
{
    let mut out: Vec<(usize, usize)> = Vec::new();
    let mut start = lo;
    loop
        invariant_except_break
            lo <= start <= hi <= s.len(),
            sep.len() > 0,
            ranges_within(out@, lo as int, hi as int),
            split_on(s@.subrange(lo as int, hi as int), sep@) == range_views(s@, out@)
                + split_on(s@.subrange(start as int, hi as int), sep@),
        ensures
            ranges_within(out@, lo as int, hi as int),
            range_views(s@, out@) == split_on(s@.subrange(lo as int, hi as int), sep@),
        decreases hi - start,
    {
        let ghost t = s@.subrange(start as int, hi as int);
        match find_in(s, start, hi, sep) {
            Some(p) => {
                proof {
                    lemma_find_sep_bound(t, sep@);
                    let k = p - start;
                    assert(t.take(k) =~= s@.subrange(start as int, p as int));
                    assert(t.skip(k + sep.len()) =~= s@.subrange(p + sep.len(), hi as int));
                }
                let ghost before = out@;
                out.push((start, p));
                assert(range_views(s@, out@) =~= range_views(s@, before) + seq![
                    s@.subrange(start as int, p as int),
                ]);
                start = p + sep.len();
            },
            None => {
                let ghost before = out@;
                out.push((start, hi));
                assert(range_views(s@, out@) =~= range_views(s@, before) + seq![t]);
                break ;
            },
        }
    }
    out
}


/// An ASCII decimal digit.
pub open spec fn is_digit(c: char) -> bool {
    48 <= (c as u32) <= 57
}

/// The number that a string of decimal digits spells.
pub open spec fn digits_value(s: Seq<char>) -> int
    decreases s.len(),
{
    if s.len() == 0 {
        0
    } else {
        digits_value(s.drop_last()) * 10 + ((s.last() as u32) - 48)
    }
}

/// The text after an optional leading `+`.
pub open spec fn unsigned_digits(s: Seq<char>) -> Seq<char> {
    if s.len() > 0 && s[0] == '+' {
        s.drop_first()
    } else {
        s
    }
}

/// Reading `s` as a byte in decimal: an optional `+`, then at least one digit,
/// with a value of at most 255.
pub open spec fn parse_u8_spec(s: Seq<char>) -> Option<u8> {
    let d = unsigned_digits(s);
    if d.len() > 0 && (forall|i: int| 0 <= i < d.len() ==> is_digit(#[trigger] d[i]))
        && digits_value(d) <= 255 {
        Some(digits_value(d) as u8)
    } else {
        None
    }
}

/// Reads `s[lo..hi]` as a decimal byte, or gives `None` when it is not one.
pub fn parse_u8_range(s: &Vec<char>, lo: usize, hi: usize) -> (r: Option<u8>)
    requires
        lo <= hi <= s.len(),
    ensures
        r == parse_u8_spec(s@.subrange(lo as int, hi as int)),
{
    let ghost t = s@.subrange(lo as int, hi as int);
    let mut start = lo;
    if lo < hi && s[lo] == '+' {
        start = lo + 1;
    }
    let ghost d = s@.subrange(start as int, hi as int);
    assert(unsigned_digits(t) =~= d);
    if start == hi {
        return None;
    }
    let mut acc: u32 = 0;
    let mut i = start;
    while i < hi
        invariant
            lo <= start <= i <= hi <= s.len(),
            t == s@.subrange(lo as int, hi as int),
            d == s@.subrange(start as int, hi as int),
            unsigned_digits(t) == d,
            forall|j: int| 0 <= j < i - start ==> is_digit(#[trigger] d[j]),
            digits_value(d.take(i - start)) >= 0,
            acc == (if digits_value(d.take(i - start)) < 256 {
                digits_value(d.take(i - start))
            } else {
                256
            }),
        decreases hi - i,
    {
        let c = s[i];
        let v = c as u32;
        if v < 48 || v > 57 {
            assert(!is_digit(d[i - start]));
            return None;
        }
        let ghost prev = digits_value(d.take(i - start));
        assert(d.take(i - start + 1).drop_last() =~= d.take(i - start));
        assert(d.take(i - start + 1).last() == c);
        let next = acc * 10 + (v - 48);
        if next > 256 {
            acc = 256;
        } else {
            acc = next;
        }
        i = i + 1;
    }
    assert(d.take(i - start) =~= d);
    if acc > 255 {
        None
    } else {
        Some(acc as u8)
    }
}

/// `encode_utf8` distributes over appending one character.
pub proof fn lemma_encode_utf8_push(s: Seq<char>, c: char)
    ensures
        vstd::utf8::encode_utf8(s.push(c)) == vstd::utf8::encode_utf8(s) + vstd::utf8::encode_scalar(
            c as u32,
        ),
    decreases s.len(),
{
    if s.len() == 0 {
        assert(s.push(c).drop_first() =~= Seq::<char>::empty());
        assert(vstd::utf8::encode_utf8(Seq::<char>::empty()) =~= Seq::<u8>::empty());
        assert(s.push(c)[0] == c);
        assert(vstd::utf8::encode_utf8(s.push(c)) =~= vstd::utf8::encode_scalar(c as u32));
    } else {
        lemma_encode_utf8_push(s.drop_first(), c);
        assert(s.push(c).drop_first() =~= s.drop_first().push(c));
        assert(vstd::utf8::encode_utf8(s.push(c)) =~= vstd::utf8::encode_utf8(s)
            + vstd::utf8::encode_scalar(c as u32));
    }
}

/// Appends the UTF-8 encoding of `c` to `out`.
fn push_utf8(out: &mut Vec<u8>, c: char)
    ensures
        final(out)@ == old(out)@ + vstd::utf8::encode_scalar(c as u32),
{
    proof {
        vstd::utf8::char_is_scalar(c);
    }
    let v = c as u32;
    if v <= 0x7F {
        out.push((v & 0x7F) as u8);
    } else if v <= 0x7FF {
        out.push(0xC0 | ((v >> 6) & 0x1F) as u8);
        out.push(0x80 | (v & 0x3F) as u8);
    } else if v <= 0xFFFF {
        out.push(0xE0 | ((v >> 12) & 0x0F) as u8);
        out.push(0x80 | ((v >> 6) & 0x3F) as u8);
        out.push(0x80 | (v & 0x3F) as u8);
    } else {
        out.push(0xF0 | ((v >> 18) & 0x7) as u8);
        out.push(0x80 | ((v >> 12) & 0x3F) as u8);
        out.push(0x80 | ((v >> 6) & 0x3F) as u8);
        out.push(0x80 | (v & 0x3F) as u8);
    }
    assert(final(out)@ =~= old(out)@ + vstd::utf8::encode_scalar(c as u32));
}

/// The UTF-8 bytes of `s[lo..hi]`.
pub fn utf8_of_range(s: &Vec<char>, lo: usize, hi: usize) -> (r: Vec<u8>)
    requires
        lo <= hi <= s.len(),
    ensures
        r@ == vstd::utf8::encode_utf8(s@.subrange(lo as int, hi as int)),
{
    let mut out: Vec<u8> = Vec::new();
    let mut i = lo;
    assert(s@.subrange(lo as int, lo as int) =~= Seq::<char>::empty());
    while i < hi
        invariant
            lo <= i <= hi <= s.len(),
            out@ == vstd::utf8::encode_utf8(s@.subrange(lo as int, i as int)),
        decreases hi - i,
    {
        proof {
            lemma_encode_utf8_push(s@.subrange(lo as int, i as int), s@[i as int]);
            assert(s@.subrange(lo as int, i + 1) =~= s@.subrange(lo as int, i as int).push(
                s@[i as int],
            ));
        }
        push_utf8(&mut out, s[i]);
        i = i + 1;
    }
    out
}

} // verus!
