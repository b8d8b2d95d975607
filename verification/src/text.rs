//! Text as sequences of characters: searching, ordering, trimming, padding and
//! numbers in decimal.
use vstd::prelude::*;
use vstd::utf8::*;

verus! {

/// `String::push` appends one character to the end of the string.
pub assume_specification[ String::push ](s: &mut String, c: char)
    ensures
        final(s)@ == old(s)@.push(c),
;

// ---------------------------------------------------------------------------
// Conversions
// ---------------------------------------------------------------------------

/// The characters of `s`, for indexed access.
pub fn to_chars(s: &str) -> (r: Vec<char>)
    ensures
        r@ == s@,
{
    let mut r: Vec<char> = Vec::new();
    for c in it: s.chars()
        invariant
            r@ == it.seq().take(it.index() as int),
            it.seq() == s@,
    {
        r.push(c);
        assert(r@ == it.seq().take(it.index() as int + 1));
    }
    assert(r@ == s@);
    r
}

/// Append the characters `s[from..to]` to `out`.
pub fn push_range(out: &mut String, s: &Vec<char>, from: usize, to: usize)
    requires
        from <= to <= s@.len(),
    ensures
        final(out)@ == old(out)@ + s@.subrange(from as int, to as int),
{
    let ghost before = out@;
    let mut i: usize = from;
    while i < to
        invariant
            from <= i <= to <= s@.len(),
            out@ == before + s@.subrange(from as int, i as int),
        decreases to - i,
    {
        out.push(s[i]);
        assert(s@.subrange(from as int, i + 1) == s@.subrange(from as int, i as int).push(
            s@[i as int],
        ));
        i += 1;
    }
}

/// The text made of the characters `s[from..to]`.
pub fn slice_text(s: &Vec<char>, from: usize, to: usize) -> (r: String)
    requires
        from <= to <= s@.len(),
    ensures
        r@ == s@.subrange(from as int, to as int),
{
    let mut r = String::new();
    push_range(&mut r, s, from, to);
    assert(r@ == s@.subrange(from as int, to as int));
    r
}

/// `a` followed by `b`.
pub fn cat2(a: &str, b: &str) -> (r: String)
    ensures
        r@ == a@ + b@,
{
    let mut r = a.to_owned();
    r.append(b);
    r
}

/// `a`, `b` and `c` in a row.
pub fn cat3(a: &str, b: &str, c: &str) -> (r: String)
    ensures
        r@ == a@ + b@ + c@,
{
    let mut r = cat2(a, b);
    r.append(c);
    r
}

/// `a`, `b`, `c` and `d` in a row.
pub fn cat4(a: &str, b: &str, c: &str, d: &str) -> (r: String)
    ensures
        r@ == a@ + b@ + c@ + d@,
{
    let mut r = cat3(a, b, c);
    r.append(d);
    r
}

/// `a`, `b`, `c`, `d` and `e` in a row.
pub fn cat5(a: &str, b: &str, c: &str, d: &str, e: &str) -> (r: String)
    ensures
        r@ == a@ + b@ + c@ + d@ + e@,
{
    let mut r = cat4(a, b, c, d);
    r.append(e);
    r
}

// ---------------------------------------------------------------------------
// Equality and order
// ---------------------------------------------------------------------------

/// Whether two texts hold the same characters.
pub fn same(a: &str, b: &str) -> (r: bool)
    ensures
        r == (a@ == b@),
{
    let x = to_chars(a);
    let y = to_chars(b);
    same_chars(&x, &y)
}

/// Whether two character sequences are equal.
pub fn same_chars(x: &Vec<char>, y: &Vec<char>) -> (r: bool)
    ensures
        r == (x@ == y@),
{
    if x.len() != y.len() {
        return false;
    }
    let mut i: usize = 0;
    while i < x.len()
        invariant
            i <= x@.len(),
            x@.len() == y@.len(),
            forall|j: int| 0 <= j < i ==> x@[j] == y@[j],
        decreases x@.len() - i,
    {
        if x[i] != y[i] {
            return false;
        }
        i += 1;
    }
    assert(x@ == y@);
    true
}

/// Lexicographic order by code point: which, for UTF-8, is the order of the
/// encoded bytes too.
pub open spec fn chars_lt(a: Seq<char>, b: Seq<char>) -> bool
    decreases a.len(),
{
    if b.len() == 0 {
        false
    } else if a.len() == 0 {
        true
    } else if a[0] != b[0] {
        a[0] < b[0]
    } else {
        chars_lt(a.drop_first(), b.drop_first())
    }
}

pub proof fn lemma_chars_lt_irreflexive(a: Seq<char>)
    ensures
        !chars_lt(a, a),
    decreases a.len(),
{
    if a.len() > 0 {
        lemma_chars_lt_irreflexive(a.drop_first());
    }
}

pub proof fn lemma_chars_lt_transitive(a: Seq<char>, b: Seq<char>, c: Seq<char>)
    requires
        chars_lt(a, b),
        chars_lt(b, c),
    ensures
        chars_lt(a, c),
    decreases a.len(),
{
    if a.len() > 0 && a[0] == b[0] && b[0] == c[0] {
        lemma_chars_lt_transitive(a.drop_first(), b.drop_first(), c.drop_first());
    }
}

pub proof fn lemma_chars_lt_total(a: Seq<char>, b: Seq<char>)
    ensures
        a == b || chars_lt(a, b) || chars_lt(b, a),
    decreases a.len(),
{
    if a.len() == 0 || b.len() == 0 {
        if a.len() == b.len() {
            assert(a =~= b);
        }
    } else if a[0] == b[0] {
        lemma_chars_lt_total(a.drop_first(), b.drop_first());
        if a.drop_first() == b.drop_first() {
            assert(a =~= seq![a[0]] + a.drop_first());
            assert(b =~= seq![b[0]] + b.drop_first());
        }
    }
}

/// Whether `x` comes before `y` in [`chars_lt`] order.
pub fn chars_before(x: &Vec<char>, y: &Vec<char>) -> (r: bool)
    ensures
        r == chars_lt(x@, y@),
{
    let mut i: usize = 0;
    assert(x@.skip(0) == x@);
    assert(y@.skip(0) == y@);
    while i < x.len() && i < y.len()
        invariant
            i <= x@.len(),
            i <= y@.len(),
            chars_lt(x@, y@) == chars_lt(x@.skip(i as int), y@.skip(i as int)),
        decreases x@.len() - i,
    {
        if x[i] != y[i] {
            return x[i] < y[i];
        }
        assert(x@.skip(i as int).drop_first() == x@.skip(i + 1));
        assert(y@.skip(i as int).drop_first() == y@.skip(i + 1));
        i += 1;
    }
    i < y.len()
}

/// Whether `a` comes before `b` in [`chars_lt`] order.
pub fn text_before(a: &str, b: &str) -> (r: bool)
    ensures
        r == chars_lt(a@, b@),
{
    let x = to_chars(a);
    let y = to_chars(b);
    chars_before(&x, &y)
}

// ---------------------------------------------------------------------------
// Searching
// ---------------------------------------------------------------------------

/// Whether `pat` stands in `s` at position `i`.
pub open spec fn occurs_at(s: Seq<char>, pat: Seq<char>, i: int) -> bool {
    &&& 0 <= i
    &&& i + pat.len() <= s.len()
    &&& s.subrange(i, i + pat.len()) == pat
}

/// The first position at or after `from` where `pat` stands in `s`.
pub open spec fn find_from(s: Seq<char>, pat: Seq<char>, from: int) -> Option<int>
    decreases s.len() + 1 - from,
{
    if from < 0 || from + pat.len() > s.len() {
        None
    } else if occurs_at(s, pat, from) {
        Some(from)
    } else {
        find_from(s, pat, from + 1)
    }
}

/// The last position at or before `from` where `pat` stands in `s`.
pub open spec fn rfind_from(s: Seq<char>, pat: Seq<char>, from: int) -> Option<int>
    decreases from + 1,
{
    if from < 0 {
        None
    } else if occurs_at(s, pat, from) {
        Some(from)
    } else {
        rfind_from(s, pat, from - 1)
    }
}

/// [`find_from`] names the least position, and finds one whenever there is one.
pub proof fn lemma_find_from(s: Seq<char>, pat: Seq<char>, from: int)
    requires
        0 <= from,
    ensures
        match find_from(s, pat, from) {
            Some(k) => from <= k && occurs_at(s, pat, k) && forall|j: int|
                from <= j < k ==> !occurs_at(s, pat, j),
            None => forall|j: int| from <= j ==> !occurs_at(s, pat, j),
        },
    decreases s.len() + 1 - from,
{
    if from + pat.len() <= s.len() && !occurs_at(s, pat, from) {
        lemma_find_from(s, pat, from + 1);
    }
}

/// [`rfind_from`] names the greatest position, and finds one whenever there is one.
pub proof fn lemma_rfind_from(s: Seq<char>, pat: Seq<char>, from: int)
    ensures
        match rfind_from(s, pat, from) {
            Some(k) => 0 <= k <= from && occurs_at(s, pat, k) && forall|j: int|
                k < j <= from ==> !occurs_at(s, pat, j),
            None => forall|j: int| 0 <= j <= from ==> !occurs_at(s, pat, j),
        },
    decreases from + 1,
{
    if from >= 0 && !occurs_at(s, pat, from) {
        lemma_rfind_from(s, pat, from - 1);
    }
}

/// Whether `pat` stands in `s` at position `i`.
pub fn matches_at(s: &Vec<char>, pat: &Vec<char>, i: usize) -> (r: bool)
    ensures
        r == occurs_at(s@, pat@, i as int),
{
    if i > s.len() || pat.len() > s.len() - i {
        return false;
    }
    let n: usize = s.len();
    let mut j: usize = 0;
    while j < pat.len()
        invariant
            j <= pat@.len(),
            n == s@.len(),
            i + pat@.len() <= n,
            forall|k: int| 0 <= k < j ==> s@[i + k] == pat@[k],
        decreases pat@.len() - j,
    {
        if s[i + j] != pat[j] {
            assert(s@.subrange(i as int, i + pat@.len())[j as int] == s@[i + j]);
            return false;
        }
        j += 1;
    }
    assert(s@.subrange(i as int, i + pat@.len()) == pat@);
    true
}

/// The first position at or after `from` where `pat` stands in `s`.
pub fn position_from(s: &Vec<char>, pat: &Vec<char>, from: usize) -> (r: Option<usize>)
    ensures
        r is Some <==> find_from(s@, pat@, from as int) is Some,
        r matches Some(k) ==> find_from(s@, pat@, from as int) == Some(k as int),
        r matches Some(k) ==> from <= k && k + pat@.len() <= s@.len(),
{
    let mut i: usize = from;
    while i <= s.len() && pat.len() <= s.len() - i
        invariant
            from <= i,
            find_from(s@, pat@, from as int) == find_from(s@, pat@, i as int),
        decreases s@.len() + 1 - i,
    {
        if matches_at(s, pat, i) {
            return Some(i);
        }
        if i == s.len() {
            assert(s@.subrange(i as int, i as int) == pat@);
            return None;
        }
        i += 1;
    }
    None
}

/// The last position at or before `from` where `pat` stands in `s`.
pub fn rposition_from(s: &Vec<char>, pat: &Vec<char>, from: usize) -> (r: Option<usize>)
    requires
        from < usize::MAX,
    ensures
        r is Some <==> rfind_from(s@, pat@, from as int) is Some,
        r matches Some(k) ==> rfind_from(s@, pat@, from as int) == Some(k as int),
        r matches Some(k) ==> k <= from && k + pat@.len() <= s@.len(),
{
    let mut i: usize = from + 1;
    while i > 0
        invariant
            0 <= i <= from + 1,
            rfind_from(s@, pat@, from as int) == rfind_from(s@, pat@, i - 1),
        decreases i,
    {
        if matches_at(s, pat, i - 1) {
            return Some(i - 1);
        }
        i -= 1;
    }
    None
}

/// Whether `pat` stands anywhere in `s`.
pub open spec fn has(s: Seq<char>, pat: Seq<char>) -> bool {
    exists|i: int| occurs_at(s, pat, i)
}

/// Whether `pat` stands anywhere in `s`.
pub fn contains_text(s: &str, pat: &str) -> (r: bool)
    ensures
        r == has(s@, pat@),
{
    let x = to_chars(s);
    let p = to_chars(pat);
    let r = position_from(&x, &p, 0);
    proof {
        lemma_find_from(s@, pat@, 0);
    }
    match r {
        Some(k) => {
            assert(occurs_at(s@, pat@, k as int));
            true
        },
        None => false,
    }
}

/// Whether `s` begins with `pat`.
pub open spec fn begins(s: Seq<char>, pat: Seq<char>) -> bool {
    occurs_at(s, pat, 0)
}

/// Whether `s` ends with `pat`.
pub open spec fn ends(s: Seq<char>, pat: Seq<char>) -> bool {
    occurs_at(s, pat, s.len() - pat.len())
}

/// Whether `s` begins with `pat`.
pub fn begins_with(s: &str, pat: &str) -> (r: bool)
    ensures
        r == begins(s@, pat@),
{
    let x = to_chars(s);
    let p = to_chars(pat);
    matches_at(&x, &p, 0)
}

/// Whether the character `c` occurs in `s`.
pub fn contains_char(s: &str, c: char) -> (r: bool)
    ensures
        r == s@.contains(c),
{
    let x = to_chars(s);
    let mut i: usize = 0;
    while i < x.len()
        invariant
            i <= x@.len(),
            x@ == s@,
            forall|j: int| 0 <= j < i ==> x@[j] != c,
        decreases x@.len() - i,
    {
        if x[i] == c {
            assert(s@[i as int] == c);
            return true;
        }
        i += 1;
    }
    false
}

// ---------------------------------------------------------------------------
// Whitespace and trimming
// ---------------------------------------------------------------------------

/// The characters with the Unicode property `White_Space`.
pub open spec fn is_space(c: char) -> bool {
    let n = c as u32;
    ||| 0x09 <= n <= 0x0d
    ||| n == 0x20
    ||| n == 0x85
    ||| n == 0xa0
    ||| n == 0x1680
    ||| 0x2000 <= n <= 0x200a
    ||| n == 0x2028
    ||| n == 0x2029
    ||| n == 0x202f
    ||| n == 0x205f
    ||| n == 0x3000
}

/// Whether `c` is white space.
pub fn space(c: char) -> (r: bool)
    ensures
        r == is_space(c),
{
    let n: u32 = c as u32;
    (0x09 <= n && n <= 0x0d) || n == 0x20 || n == 0x85 || n == 0xa0 || n == 0x1680 || (0x2000 <= n
        && n <= 0x200a) || n == 0x2028 || n == 0x2029 || n == 0x202f || n == 0x205f || n == 0x3000
}

/// `s` without its trailing white space.
pub open spec fn trim_end(s: Seq<char>) -> Seq<char>
    decreases s.len(),
{
    if s.len() > 0 && is_space(s.last()) {
        trim_end(s.drop_last())
    } else {
        s
    }
}

/// `s` without its leading white space.
pub open spec fn trim_start(s: Seq<char>) -> Seq<char>
    decreases s.len(),
{
    if s.len() > 0 && is_space(s[0]) {
        trim_start(s.drop_first())
    } else {
        s
    }
}

/// `s` without white space at either end.
pub open spec fn trim(s: Seq<char>) -> Seq<char> {
    trim_end(trim_start(s))
}

/// Where `s[..end]` ends once its trailing white space is cut off.
pub fn trimmed_end(s: &Vec<char>, end: usize) -> (r: usize)
    requires
        end <= s@.len(),
    ensures
        r <= end,
        s@.take(r as int) == trim_end(s@.take(end as int)),
{
    let mut i: usize = end;
    while i > 0 && space(s[i - 1])
        invariant
            i <= end <= s@.len(),
            trim_end(s@.take(i as int)) == trim_end(s@.take(end as int)),
        decreases i,
    {
        assert(s@.take(i as int).drop_last() == s@.take(i - 1));
        i -= 1;
    }
    i
}

/// Where `s` begins once its leading white space is cut off.
pub fn trimmed_start(s: &Vec<char>) -> (r: usize)
    ensures
        r <= s@.len(),
        s@.skip(r as int) == trim_start(s@),
{
    let mut i: usize = 0;
    assert(s@.skip(0) == s@);
    while i < s.len() && space(s[i])
        invariant
            i <= s@.len(),
            trim_start(s@.skip(i as int)) == trim_start(s@),
        decreases s@.len() - i,
    {
        assert(s@.skip(i as int).drop_first() == s@.skip(i + 1));
        i += 1;
    }
    i
}

/// `s` without white space at either end.
pub fn trimmed(s: &str) -> (r: String)
    ensures
        r@ == trim(s@),
{
    let x = to_chars(s);
    let a = trimmed_start(&x);
    let rest = slice_text(&x, a, x.len());
    assert(rest@ == x@.skip(a as int));
    let y = to_chars(rest.as_str());
    let b = trimmed_end(&y, y.len());
    assert(y@.take(y@.len() as int) == y@);
    let r = slice_text(&y, 0, b);
    assert(r@ == y@.take(b as int));
    r
}

/// `s` with every leading `c` cut off.
pub open spec fn strip_front(s: Seq<char>, c: char) -> Seq<char>
    decreases s.len(),
{
    if s.len() > 0 && s[0] == c {
        strip_front(s.drop_first(), c)
    } else {
        s
    }
}

/// `s` with every trailing `c` cut off.
pub open spec fn strip_back(s: Seq<char>, c: char) -> Seq<char>
    decreases s.len(),
{
    if s.len() > 0 && s.last() == c {
        strip_back(s.drop_last(), c)
    } else {
        s
    }
}

/// `s` with every `c` cut off at both ends.
pub fn stripped(s: &str, c: char) -> (r: String)
    ensures
        r@ == strip_back(strip_front(s@, c), c),
{
    let x = to_chars(s);
    let mut a: usize = 0;
    assert(x@.skip(0) == x@);
    while a < x.len() && x[a] == c
        invariant
            a <= x@.len(),
            strip_front(x@.skip(a as int), c) == strip_front(x@, c),
        decreases x@.len() - a,
    {
        assert(x@.skip(a as int).drop_first() == x@.skip(a + 1));
        a += 1;
    }
    let mut b: usize = x.len();
    let ghost front = x@.skip(a as int);
    assert(x@.subrange(a as int, b as int) == front);
    while b > a && x[b - 1] == c
        invariant
            a <= b <= x@.len(),
            strip_back(x@.subrange(a as int, b as int), c) == strip_back(front, c),
        decreases b,
    {
        assert(x@.subrange(a as int, b as int).drop_last() == x@.subrange(a as int, b - 1));
        b -= 1;
    }
    slice_text(&x, a, b)
}

/// `s` with every trailing occurrence of `pat` cut off, one after another.
pub open spec fn strip_suffixes(s: Seq<char>, pat: Seq<char>) -> Seq<char>
    decreases s.len(),
{
    if pat.len() > 0 && ends(s, pat) {
        strip_suffixes(s.take(s.len() - pat.len()), pat)
    } else {
        s
    }
}

/// `s` with every trailing occurrence of `pat` cut off, one after another.
pub fn without_suffixes(s: &str, pat: &str) -> (r: String)
    ensures
        r@ == strip_suffixes(s@, pat@),
{
    let x = to_chars(s);
    let p = to_chars(pat);
    let mut end: usize = x.len();
    assert(x@.take(x@.len() as int) == x@);
    let mut going: bool = p.len() > 0;
    while going
        invariant
            end <= x@.len(),
            going ==> p@.len() > 0,
            !going ==> (p@.len() == 0 || !ends(x@.take(end as int), p@)),
            strip_suffixes(x@.take(end as int), p@) == strip_suffixes(x@, p@),
        decreases end + (if going {
            1int
        } else {
            0int
        }),
    {
        if p.len() <= end {
            let at = end - p.len();
            assert(x@.take(end as int).subrange(at as int, end as int) == x@.subrange(
                at as int,
                end as int,
            ));
            if matches_at(&x, &p, at) {
                assert(x@.take(end as int).take(at as int) == x@.take(at as int));
                end = at;
            } else {
                going = false;
            }
        } else {
            going = false;
        }
    }
    let r = slice_text(&x, 0, end);
    assert(r@ == x@.take(end as int));
    r
}

// ---------------------------------------------------------------------------
// Case
// ---------------------------------------------------------------------------

/// `c` with `A`..`Z` folded to `a`..`z`.
pub open spec fn lower(c: char) -> char {
    if 'A' <= c <= 'Z' {
        ((c as u32) + 32) as char
    } else {
        c
    }
}

/// `s` with ASCII capitals folded to small letters.
pub open spec fn lowercase(s: Seq<char>) -> Seq<char> {
    s.map_values(|c: char| lower(c))
}

fn lower_char(c: char) -> (r: char)
    ensures
        r == lower(c),
{
    if 'A' <= c && c <= 'Z' {
        ((c as u8) + 32) as char
    } else {
        c
    }
}

/// `s` with ASCII capitals folded to small letters.
pub fn to_lowercase(s: &str) -> (r: String)
    ensures
        r@ == lowercase(s@),
{
    let x = to_chars(s);
    let mut r = String::new();
    let mut i: usize = 0;
    while i < x.len()
        invariant
            i <= x@.len(),
            r@ == lowercase(x@.take(i as int)),
        decreases x@.len() - i,
    {
        r.push(lower_char(x[i]));
        assert(lowercase(x@.take(i + 1)) == lowercase(x@.take(i as int)).push(lower(x@[i as int])));
        i += 1;
    }
    assert(x@.take(x@.len() as int) == x@);
    r
}

// ---------------------------------------------------------------------------
// Numbers and padding
// ---------------------------------------------------------------------------

/// The digit `d`, for `d` below ten.
pub open spec fn digit(d: nat) -> char {
    (('0' as u32) + d) as char
}

/// `n` in decimal, without leading zeros.
pub open spec fn dec(n: nat) -> Seq<char>
    decreases n,
{
    if n < 10 {
        seq![digit(n)]
    } else {
        dec(n / 10).push(digit(n % 10))
    }
}

/// Append `n` in decimal.
pub fn push_dec(out: &mut String, n: u64)
    ensures
        final(out)@ == old(out)@ + dec(n as nat),
    decreases n,
{
    if n >= 10 {
        push_dec(out, n / 10);
    }
    let d: u8 = (n % 10) as u8;
    out.push((48u8 + d) as char);
    assert(digit((n % 10) as nat) == ((48 + d) as u8) as char);
    assert(out@ == old(out)@ + dec(n as nat));
}

/// `n` in decimal.
pub fn dec_text(n: u64) -> (r: String)
    ensures
        r@ == dec(n as nat),
{
    let mut r = String::new();
    push_dec(&mut r, n);
    assert(r@ == dec(n as nat));
    r
}

/// `n` in decimal.
pub fn count_text(n: usize) -> (r: String)
    ensures
        r@ == dec(n as nat),
{
    dec_text(n as u64)
}

/// `n` copies of `c`.
pub open spec fn fill(c: char, n: int) -> Seq<char> {
    Seq::new(if n > 0 { n as nat } else { 0 }, |i: int| c)
}

/// `s` with spaces in front, up to `width` characters.
pub open spec fn right(s: Seq<char>, width: int) -> Seq<char> {
    fill(' ', width - s.len()) + s
}

/// `s` with spaces behind, up to `width` characters.
pub open spec fn left(s: Seq<char>, width: int) -> Seq<char> {
    s + fill(' ', width - s.len())
}

/// `s` with zeros in front, up to `width` characters.
pub open spec fn zeros(s: Seq<char>, width: int) -> Seq<char> {
    fill('0', width - s.len()) + s
}

/// Append `n` copies of `c`.
pub fn push_fill(out: &mut String, c: char, n: usize)
    ensures
        final(out)@ == old(out)@ + fill(c, n as int),
{
    let ghost before = out@;
    let mut i: usize = 0;
    assert(out@ == before + fill(c, 0));
    while i < n
        invariant
            i <= n,
            out@ == before + fill(c, i as int),
        decreases n - i,
    {
        out.push(c);
        assert(fill(c, i + 1) == fill(c, i as int).push(c));
        i += 1;
    }
}

/// How many characters `s` holds.
pub fn char_count(s: &str) -> (r: usize)
    ensures
        r == s@.len(),
{
    to_chars(s).len()
}

fn padding(s: &str, width: usize) -> (r: usize)
    ensures
        fill(' ', r as int) == fill(' ', width - s@.len()),
        fill('0', r as int) == fill('0', width - s@.len()),
{
    let n = char_count(s);
    if n < width {
        width - n
    } else {
        0
    }
}

/// `s` with spaces in front, up to `width` characters.
pub fn right_text(s: &str, width: usize) -> (r: String)
    ensures
        r@ == right(s@, width as int),
{
    let mut r = String::new();
    let n = padding(s, width);
    push_fill(&mut r, ' ', n);
    r.append(s);
    assert(r@ == right(s@, width as int));
    r
}

/// `s` with spaces behind, up to `width` characters.
pub fn left_text(s: &str, width: usize) -> (r: String)
    ensures
        r@ == left(s@, width as int),
{
    let mut r = s.to_owned();
    let n = padding(s, width);
    push_fill(&mut r, ' ', n);
    r
}

/// `s` with zeros in front, up to `width` characters.
pub fn zeros_text(s: &str, width: usize) -> (r: String)
    ensures
        r@ == zeros(s@, width as int),
{
    let mut r = String::new();
    let n = padding(s, width);
    push_fill(&mut r, '0', n);
    r.append(s);
    assert(r@ == zeros(s@, width as int));
    r
}

// ---------------------------------------------------------------------------
// Lists of texts
// ---------------------------------------------------------------------------

/// What a list of strings holds.
pub open spec fn texts(v: Seq<String>) -> Seq<Seq<char>> {
    v.map_values(|t: String| t@)
}

/// What an optional string holds.
pub open spec fn view_of(o: Option<String>) -> Option<Seq<char>> {
    match o {
        Some(t) => Some(t@),
        None => None,
    }
}

/// A copy of an optional string.
pub fn copy_opt(o: &Option<String>) -> (r: Option<String>)
    ensures
        r == *o,
{
    match o {
        Some(t) => Some(t.clone()),
        None => None,
    }
}

/// A copy of a list of strings.
pub fn copy_texts(v: &Vec<String>) -> (r: Vec<String>)
    ensures
        r@ == v@,
{
    let r = v.clone();
    assert(r@ == v@);
    r
}

/// The parts of `s` between the occurrences of `c`.
pub open spec fn split(s: Seq<char>, c: char) -> Seq<Seq<char>>
    decreases s.len(),
{
    if s.len() == 0 {
        seq![Seq::empty()]
    } else {
        let head = split(s.drop_last(), c);
        if s.last() == c {
            head.push(Seq::empty())
        } else {
            head.drop_last().push(head.last().push(s.last()))
        }
    }
}

pub proof fn lemma_split_nonempty(s: Seq<char>, c: char)
    ensures
        split(s, c).len() > 0,
    decreases s.len(),
{
    if s.len() > 0 {
        lemma_split_nonempty(s.drop_last(), c);
    }
}

/// The parts of `s` between the occurrences of `c`.
pub fn split_at_char(s: &str, c: char) -> (r: Vec<String>)
    ensures
        texts(r@) == split(s@, c),
        r@.len() > 0,
{
    let x = to_chars(s);
    let mut r: Vec<String> = Vec::new();
    let mut part = String::new();
    let mut i: usize = 0;
    assert(x@.take(0) == Seq::<char>::empty());
    assert(texts(r@).push(part@) == split(x@.take(0), c));
    while i < x.len()
        invariant
            i <= x@.len(),
            texts(r@).push(part@) == split(x@.take(i as int), c),
        decreases x@.len() - i,
    {
        let ghost done = r@;
        let ghost before = part@;
        proof {
            let all = texts(done).push(before);
            assert(x@.take(i + 1).drop_last() == x@.take(i as int));
            assert(all.drop_last() == texts(done));
        }
        if x[i] == c {
            r.push(part);
            part = String::new();
            assert(texts(r@) == texts(done).push(before));
        } else {
            part.push(x[i]);
        }
        i += 1;
    }
    let ghost done = r@;
    let ghost before = part@;
    r.push(part);
    assert(texts(r@) == texts(done).push(before));
    assert(x@.take(x@.len() as int) == x@);
    r
}

/// `line` without the carriage return before its line break.
pub open spec fn without_return(line: Seq<char>) -> Seq<char> {
    if line.len() > 0 && line.last() == '\r' {
        line.drop_last()
    } else {
        line
    }
}

/// The lines of `s`. A line ends at a line feed, which may have a carriage return
/// before it; what follows the last line feed is a line unless it is empty.
pub open spec fn lines(s: Seq<char>) -> Seq<Seq<char>> {
    let parts = split(s, '\n');
    let ended = parts.drop_last().map_values(|l: Seq<char>| without_return(l));
    if parts.last().len() == 0 {
        ended
    } else {
        ended.push(parts.last())
    }
}

/// The lines of `s`.
pub fn lines_of(s: &str) -> (r: Vec<String>)
    ensures
        texts(r@) == lines(s@),
{
    let parts = split_at_char(s, '\n');
    let n: usize = parts.len();
    let mut r: Vec<String> = Vec::new();
    let mut i: usize = 0;
    let ghost all = texts(parts@);
    let ghost ended = all.drop_last().map_values(|l: Seq<char>| without_return(l));
    while i < n - 1
        invariant
            i <= n - 1,
            n == parts@.len(),
            all == texts(parts@),
            ended == all.drop_last().map_values(|l: Seq<char>| without_return(l)),
            texts(r@) == ended.take(i as int),
        decreases n - i,
    {
        let x = to_chars(parts[i].as_str());
        let end: usize = if x.len() > 0 && x[x.len() - 1] == '\r' {
            x.len() - 1
        } else {
            x.len()
        };
        let line = slice_text(&x, 0, end);
        assert(line@ == without_return(all[i as int]));
        let ghost done = r@;
        r.push(line);
        assert(texts(r@) == texts(done).push(line@));
        assert(ended.take(i + 1) == ended.take(i as int).push(ended[i as int]));
        i += 1;
    }
    assert(ended.take(n - 1) == ended);
    if !parts[n - 1].as_str().is_empty() {
        let ghost done = r@;
        r.push(parts[n - 1].clone());
        assert(texts(r@) == texts(done).push(all.last()));
    }
    r
}

/// The texts of `s` that are not empty.
pub open spec fn nonempty(s: Seq<Seq<char>>) -> Seq<Seq<char>> {
    s.filter(|t: Seq<char>| t.len() > 0)
}

/// The words of `s`: what stands between its white space.
pub open spec fn words(s: Seq<char>) -> Seq<Seq<char>> {
    nonempty(
        split(
            s.map_values(
                |c: char|
                    if is_space(c) {
                        ' '
                    } else {
                        c
                    },
            ),
            ' ',
        ),
    )
}

/// The words of `s`.
pub fn words_of(s: &str) -> (r: Vec<String>)
    ensures
        texts(r@) == words(s@),
{
    let x = to_chars(s);
    let mut blanked = String::new();
    let ghost blank = |c: char|
        if is_space(c) {
            ' '
        } else {
            c
        };
    let mut i: usize = 0;
    while i < x.len()
        invariant
            i <= x@.len(),
            blanked@ == x@.take(i as int).map_values(blank),
            blank == (|c: char|
                if is_space(c) {
                    ' '
                } else {
                    c
                }),
        decreases x@.len() - i,
    {
        let c = x[i];
        blanked.push(
            if space(c) {
                ' '
            } else {
                c
            },
        );
        assert(x@.take(i + 1).map_values(blank) == x@.take(i as int).map_values(blank).push(
            blank(c),
        ));
        i += 1;
    }
    assert(x@.take(x@.len() as int) == x@);
    let parts = split_at_char(blanked.as_str(), ' ');
    let ghost all = texts(parts@);
    let ghost keep = |t: Seq<char>| t.len() > 0;
    let mut r: Vec<String> = Vec::new();
    let mut k: usize = 0;
    assert(all.take(0).filter(keep) == Seq::<Seq<char>>::empty()) by {
        reveal(Seq::filter);
    }
    while k < parts.len()
        invariant
            k <= parts@.len(),
            all == texts(parts@),
            keep == (|t: Seq<char>| t.len() > 0),
            texts(r@) == all.take(k as int).filter(keep),
        decreases parts@.len() - k,
    {
        proof {
            assert(all.take(k + 1).drop_last() == all.take(k as int));
            reveal(Seq::filter);
        }
        let ghost done = r@;
        if !parts[k].as_str().is_empty() {
            r.push(parts[k].clone());
            assert(texts(r@) == texts(done).push(all[k as int]));
        }
        k += 1;
    }
    assert(all.take(parts@.len() as int) == all);
    r
}

/// `parts` with `sep` between them.
pub open spec fn joined(parts: Seq<Seq<char>>, sep: Seq<char>) -> Seq<char>
    decreases parts.len(),
{
    if parts.len() == 0 {
        Seq::empty()
    } else if parts.len() == 1 {
        parts[0]
    } else {
        joined(parts.drop_last(), sep) + sep + parts.last()
    }
}

/// The first `n` of `parts` with `sep` between them.
pub fn join_texts(parts: &Vec<String>, n: usize, sep: &str) -> (r: String)
    requires
        n <= parts.len(),
    ensures
        r@ == joined(texts(parts@).take(n as int), sep@),
{
    let mut r = String::new();
    let mut i: usize = 0;
    while i < n
        invariant
            i <= n <= parts.len(),
            r@ == joined(texts(parts@).take(i as int), sep@),
        decreases n - i,
    {
        assert(texts(parts@).take(i + 1).drop_last() == texts(parts@).take(i as int));
        if i > 0 {
            r.append(sep);
        }
        r.append(parts[i].as_str());
        assert(r@ == joined(texts(parts@).take(i + 1), sep@));
        i += 1;
    }
    r
}

// ---------------------------------------------------------------------------
// Byte offsets
// ---------------------------------------------------------------------------

/// The byte offset at which the `k`th character of `s` begins.
pub open spec fn byte_at(s: Seq<char>, k: int) -> nat {
    encode_utf8(s.take(k)).len()
}

/// Encoding a concatenation is concatenating the encodings.
pub proof fn lemma_encode_add(a: Seq<char>, b: Seq<char>)
    ensures
        encode_utf8(a + b) == encode_utf8(a) + encode_utf8(b),
    decreases a.len(),
{
    if a.len() == 0 {
        assert(a + b == b);
        assert(encode_utf8(a) + encode_utf8(b) == encode_utf8(b));
    } else {
        lemma_encode_add(a.drop_first(), b);
        assert((a + b).drop_first() == a.drop_first() + b);
        assert((a + b)[0] == a[0]);
        assert(encode_utf8(a + b) == encode_utf8(a) + encode_utf8(b));
    }
}

/// Where one character ends another begins: the offsets named by [`byte_at`]
/// cut the encoding at character boundaries, and rise with the position.
pub proof fn lemma_byte_at(s: Seq<char>, k: int)
    requires
        0 <= k <= s.len(),
    ensures
        byte_at(s, k) <= encode_utf8(s).len(),
        is_char_boundary(encode_utf8(s), byte_at(s, k) as int),
    decreases s.len(),
{
    encode_utf8_valid_utf8(s);
    assert(s.take(k) + s.skip(k) == s);
    lemma_encode_add(s.take(k), s.skip(k));
    if k > 0 {
        let t = s.drop_first();
        encode_utf8_first_scalar(s);
        assert(pop_first_scalar(encode_utf8(s)) == encode_utf8(t));
        lemma_byte_at(t, k - 1);
        assert(s.take(k).drop_first() == t.take(k - 1));
        assert(s.take(k)[0] == s[0]);
    }
}

/// The bytes between two such offsets encode the characters in between.
pub proof fn lemma_bytes_between(s: Seq<char>, a: int, b: int)
    requires
        0 <= a <= b <= s.len(),
    ensures
        byte_at(s, a) <= byte_at(s, b) <= encode_utf8(s).len(),
        encode_utf8(s).subrange(byte_at(s, a) as int, byte_at(s, b) as int) == encode_utf8(
            s.subrange(a, b),
        ),
{
    assert(s.take(b) == s.take(a) + s.subrange(a, b));
    assert(s == s.take(b) + s.skip(b));
    lemma_encode_add(s.take(a), s.subrange(a, b));
    lemma_encode_add(s.take(b), s.skip(b));
    assert(encode_utf8(s).subrange(byte_at(s, a) as int, byte_at(s, b) as int) == encode_utf8(
        s.subrange(a, b),
    ));
}

/// A boundary stays one when the text before another boundary is cut off.
pub proof fn lemma_boundary_suffix(bytes: Seq<u8>, a: int, b: int)
    requires
        valid_utf8(bytes),
        is_char_boundary(bytes, a),
        is_char_boundary(bytes, b),
        0 <= a <= b <= bytes.len(),
    ensures
        is_char_boundary(bytes.subrange(a, bytes.len() as int), b - a),
    decreases bytes.len(),
{
    if a == 0 {
        assert(bytes.subrange(0, bytes.len() as int) == bytes);
    } else {
        let l = length_of_first_scalar(bytes);
        let t = pop_first_scalar(bytes);
        assert(is_char_boundary(t, a - l));
        assert(is_char_boundary(t, b - l));
        lemma_boundary_suffix(t, a - l, b - l);
        assert(bytes.subrange(a, bytes.len() as int) == t.subrange(a - l, t.len() as int));
    }
}

fn char_width(c: char) -> (r: usize)
    ensures
        r == encode_scalar(c as u32).len(),
{
    let n: u32 = c as u32;
    if n <= 0x7f {
        1
    } else if n <= 0x7ff {
        2
    } else if n <= 0xffff {
        3
    } else {
        4
    }
}

/// The byte offset at which the `k`th character of `s` begins.
pub fn byte_offset(s: &Vec<char>, k: usize) -> (r: usize)
    requires
        k <= s@.len(),
        encode_utf8(s@).len() <= usize::MAX,
    ensures
        r == byte_at(s@, k as int),
{
    let mut r: usize = 0;
    let mut i: usize = 0;
    assert(s@.take(0) == Seq::<char>::empty());
    while i < k
        invariant
            i <= k <= s@.len(),
            encode_utf8(s@).len() <= usize::MAX,
            r == byte_at(s@, i as int),
        decreases k - i,
    {
        proof {
            let one = seq![s@[i as int]];
            assert(s@.take(i + 1) == s@.take(i as int) + one);
            lemma_encode_add(s@.take(i as int), one);
            assert(one.drop_first() == Seq::<char>::empty());
            assert(encode_utf8(one) == encode_scalar(s@[i as int] as u32)) by {
                reveal_with_fuel(encode_utf8, 2);
            }
            lemma_bytes_between(s@, i as int, i + 1);
        }
        r = r + char_width(s[i]);
        i += 1;
    }
    r
}

// ---------------------------------------------------------------------------
// What holds of texts
// ---------------------------------------------------------------------------

/// The number that a text of digits stands for.
pub open spec fn number(s: Seq<char>) -> int
    decreases s.len(),
{
    if s.len() == 0 {
        0
    } else {
        10 * number(s.drop_last()) + (s.last() as int - '0' as int)
    }
}

/// A number is written in digits that stand for it, without a zero too many in front.
pub proof fn law_a_number_is_read_back(n: nat)
    ensures
        number(dec(n)) == n,
        dec(n).len() > 0,
        forall|i: int| 0 <= i < dec(n).len() ==> '0' <= #[trigger] dec(n)[i] <= '9',
        n > 0 ==> dec(n)[0] != '0',
    decreases n,
{
    let s = dec(n);
    assert(digit(n % 10) as int == 48 + n % 10);
    if n < 10 {
        assert(s.drop_last() =~= Seq::<char>::empty());
        assert(number(s.drop_last()) == 0);
    } else {
        law_a_number_is_read_back(n / 10);
        assert(s.drop_last() =~= dec(n / 10));
        assert forall|i: int| 0 <= i < s.len() implies '0' <= #[trigger] s[i] <= '9' by {
            if i < s.len() - 1 {
                assert(s[i] == dec(n / 10)[i]);
            }
        }
        assert(s[0] == dec(n / 10)[0]);
    }
}

/// A number below ten thousand has four digits at most.
pub proof fn lemma_dec_len(n: nat)
    requires
        n < 10000,
    ensures
        dec(n).len() <= 4,
{
    reveal_with_fuel(dec, 5);
}

/// Where two texts first differ decides which comes first, and a text comes before all
/// that go on from it.
pub proof fn law_the_first_difference_decides(a: Seq<char>, b: Seq<char>, k: int)
    requires
        0 <= k <= a.len(),
        k <= b.len(),
        a.take(k) == b.take(k),
    ensures
        k < a.len() && k < b.len() && a[k] != b[k] ==> chars_lt(a, b) == (a[k] < b[k]),
        k == a.len() ==> chars_lt(a, b) == (k < b.len()),
        k == b.len() ==> !chars_lt(a, b),
    decreases k,
{
    if k > 0 {
        assert(a.take(k)[0] == a[0] && b.take(k)[0] == b[0]);
        assert(a.drop_first().take(k - 1) =~= a.take(k).drop_first());
        assert(b.drop_first().take(k - 1) =~= b.take(k).drop_first());
        law_the_first_difference_decides(a.drop_first(), b.drop_first(), k - 1);
    }
}

/// What counts as white space between words: blanks, tabs and line breaks do, and no
/// other character of ASCII.
pub proof fn law_white_space(c: char)
    ensures
        c == ' ' || c == '\t' || c == '\n' || c == '\r' ==> is_space(c),
        0x20 < c as int <= 0x7f ==> !is_space(c),
{
}

proof fn lemma_trim_end(s: Seq<char>) -> (n: int)
    ensures
        0 <= n <= s.len(),
        trim_end(s) == s.take(n),
        n > 0 ==> !is_space(s[n - 1]),
        forall|i: int| n <= i < s.len() ==> is_space(#[trigger] s[i]),
    decreases s.len(),
{
    if s.len() > 0 && is_space(s.last()) {
        let n = lemma_trim_end(s.drop_last());
        assert(s.drop_last().take(n) =~= s.take(n));
        assert forall|i: int| n <= i < s.len() implies is_space(#[trigger] s[i]) by {
            if i < s.len() - 1 {
                assert(s.drop_last()[i] == s[i]);
            }
        }
        n
    } else {
        assert(s.take(s.len() as int) =~= s);
        s.len() as int
    }
}

proof fn lemma_trim_start(s: Seq<char>) -> (n: int)
    ensures
        0 <= n <= s.len(),
        trim_start(s) == s.skip(n),
        n < s.len() ==> !is_space(s[n]),
        forall|i: int| 0 <= i < n ==> is_space(#[trigger] s[i]),
    decreases s.len(),
{
    if s.len() > 0 && is_space(s[0]) {
        let n = lemma_trim_start(s.drop_first());
        assert(s.drop_first().skip(n) =~= s.skip(n + 1));
        assert forall|i: int| 0 <= i < n + 1 implies is_space(#[trigger] s[i]) by {
            if i > 0 {
                assert(s.drop_first()[i - 1] == s[i]);
            }
        }
        n + 1
    } else {
        assert(s.skip(0) =~= s);
        0
    }
}

/// Trimming takes away white space at the ends, all of it, and nothing else.
pub proof fn law_trimming_takes_the_white_space_at_the_ends(s: Seq<char>)
    ensures
        exists|a: int, b: int|
            0 <= a <= b <= s.len() && trim(s) == #[trigger] s.subrange(a, b) && (a < b
                ==> !is_space(s[a]) && !is_space(s[b - 1])) && forall|i: int|
                0 <= i < a || b <= i < s.len() ==> is_space(#[trigger] s[i]),
{
    let a = lemma_trim_start(s);
    let t = s.skip(a);
    let n = lemma_trim_end(t);
    assert(t.take(n) =~= s.subrange(a, a + n));
    if n > 0 {
        assert(t[n - 1] == s[a + n - 1]);
    }
    assert forall|i: int| 0 <= i < a || a + n <= i < s.len() implies is_space(#[trigger] s[i]) by {
        if i >= a + n {
            assert(t[i - a] == s[i]);
        }
    }
    assert(trim(s) == s.subrange(a, a + n));
}

/// Padding brings a text to a width with blanks, or with zeros, and changes nothing of
/// the text; one that is wide enough is left alone.
pub proof fn law_padding_fills_up_to_the_width(s: Seq<char>, width: int)
    ensures
        ({
            let n = if width > s.len() {
                width - s.len()
            } else {
                0
            };
            &&& right(s, width).len() == n + s.len()
            &&& left(s, width).len() == n + s.len()
            &&& zeros(s, width).len() == n + s.len()
            &&& right(s, width).skip(n) == s
            &&& left(s, width).take(s.len() as int) == s
            &&& zeros(s, width).skip(n) == s
            &&& forall|i: int|
                0 <= i < n ==> #[trigger] right(s, width)[i] == ' ' && zeros(s, width)[i] == '0'
                    && left(s, width)[s.len() + i] == ' '
        }),
{
    let n = if width > s.len() {
        width - s.len()
    } else {
        0
    };
    assert(right(s, width).skip(n) =~= s);
    assert(left(s, width).take(s.len() as int) =~= s);
    assert(zeros(s, width).skip(n) =~= s);
}

pub proof fn lemma_split_more(x: Seq<char>, y: Seq<char>, c: char)
    requires
        !y.contains(c),
    ensures
        split(x + y, c) == split(x, c).drop_last().push(split(x, c).last() + y),
    decreases y.len(),
{
    lemma_split_nonempty(x, c);
    let all = split(x, c);
    if y.len() == 0 {
        assert(x + y =~= x);
        assert(all.last() + y =~= all.last());
        assert(all =~= all.drop_last().push(all.last()));
    } else {
        let z = y.drop_last();
        assert forall|i: int| 0 <= i < z.len() implies z[i] != c by {
            assert(y.contains(y[i]));
        }
        lemma_split_more(x, z, c);
        assert((x + y).drop_last() =~= x + z);
        assert(y.contains(y.last()));
        let head = split(x + z, c);
        assert(head.drop_last() =~= all.drop_last());
        assert(head.last() == all.last() + z);
        assert((all.last() + z).push(y.last()) =~= all.last() + y);
    }
}

pub proof fn lemma_split_end(x: Seq<char>, c: char)
    ensures
        split(x.push(c), c) == split(x, c).push(Seq::empty()),
{
    assert(x.push(c).drop_last() =~= x);
}

pub proof fn lemma_split_none(y: Seq<char>, c: char)
    requires
        !y.contains(c),
    ensures
        split(y, c) == seq![y],
{
    lemma_split_more(Seq::empty(), y, c);
    assert(Seq::<char>::empty() + y =~= y);
    assert(split(Seq::empty(), c) == seq![Seq::<char>::empty()]);
    assert(seq![Seq::<char>::empty()].drop_last().push(y) =~= seq![y]);
}

pub proof fn lemma_split_after(y: Seq<char>, c: char)
    ensures
        split(seq![c] + y, c) == seq![Seq::<char>::empty()] + split(y, c),
    decreases y.len(),
{
    let s = seq![c] + y;
    if y.len() == 0 {
        assert(s.drop_last() =~= y);
        assert(split(y, c) == seq![Seq::<char>::empty()]);
        assert(split(s, c) == split(y, c).push(Seq::empty()));
        assert(split(s, c) =~= seq![Seq::<char>::empty()] + split(y, c));
    } else {
        lemma_split_after(y.drop_last(), c);
        lemma_split_nonempty(y.drop_last(), c);
        assert(s.drop_last() =~= seq![c] + y.drop_last());
        assert(s.last() == y.last());
        let a = split(y.drop_last(), c);
        let b = seq![Seq::<char>::empty()] + a;
        assert(split(s.drop_last(), c) == b);
        assert(b.last() == a.last());
        assert(b.drop_last() =~= seq![Seq::<char>::empty()] + a.drop_last());
        assert(split(s, c) =~= seq![Seq::<char>::empty()] + split(y, c));
    }
}

/// Lines as they are written, each with a line feed behind it.
pub open spec fn line_fed(lines: Seq<Seq<char>>) -> Seq<char>
    decreases lines.len(),
{
    if lines.len() == 0 {
        Seq::empty()
    } else {
        line_fed(lines.drop_last()) + lines.last().push('\n')
    }
}

/// Whether each of `lines` is one line, with nothing of its end.
pub open spec fn are_lines(lines: Seq<Seq<char>>) -> bool {
    forall|i: int|
        0 <= i < lines.len() ==> !(#[trigger] lines[i]).contains('\n') && (lines[i].len() > 0
            ==> lines[i].last() != '\r')
}

proof fn lemma_line_fed(all: Seq<Seq<char>>)
    requires
        are_lines(all),
    ensures
        split(line_fed(all), '\n') == all.push(Seq::empty()),
    decreases all.len(),
{
    if all.len() == 0 {
        assert(split(line_fed(all), '\n') =~= all.push(Seq::empty()));
    } else {
        let head = all.drop_last();
        let x = line_fed(head);
        let y = all.last();
        assert(all[all.len() - 1] == y);
        assert forall|i: int| 0 <= i < head.len() implies !(#[trigger] head[i]).contains('\n') && (
        head[i].len() > 0 ==> head[i].last() != '\r') by {
            assert(head[i] == all[i]);
        }
        lemma_line_fed(head);
        lemma_split_more(x, y, '\n');
        lemma_split_end(x + y, '\n');
        assert(line_fed(all) =~= (x + y).push('\n'));
        let parts = head.push(Seq::<char>::empty());
        assert(parts.drop_last() =~= head);
        assert(Seq::<char>::empty() + y =~= y);
        assert(head.push(y) =~= all);
    }
}

/// Lines that are written one below the other are read back, all of them, in order,
/// whether or not the last one is ended.
pub proof fn law_lines_are_read_back(all: Seq<Seq<char>>, last: Seq<char>)
    requires
        are_lines(all),
        last.len() > 0,
        !last.contains('\n'),
    ensures
        lines(line_fed(all)) == all,
        lines(line_fed(all) + last) == all.push(last),
{
    lemma_line_fed(all);
    let parts = all.push(Seq::<char>::empty());
    let f = |l: Seq<char>| without_return(l);
    assert(parts.drop_last() =~= all);
    assert(all.map_values(f) =~= all) by {
        assert forall|i: int| 0 <= i < all.len() implies all.map_values(f)[i] == all[i] by {
            assert(without_return(all[i]) == all[i]);
        }
    }
    lemma_split_more(line_fed(all), last, '\n');
    assert(Seq::<char>::empty() + last =~= last);
    assert(all.push(last).drop_last() =~= all);
}

proof fn lemma_joined_push(parts: Seq<Seq<char>>, x: Seq<char>, sep: Seq<char>)
    requires
        parts.len() > 0,
    ensures
        joined(parts.push(x), sep) == joined(parts, sep) + sep + x,
{
    assert(parts.push(x).drop_last() =~= parts);
}

/// Splitting takes a text apart at a character and at nothing else: put together again
/// with that character between them, the parts are the text, and none of them holds it.
pub proof fn law_what_is_split_is_joined_again(s: Seq<char>, c: char)
    ensures
        joined(split(s, c), seq![c]) == s,
        split(s, c).len() > 0,
        forall|i: int| 0 <= i < split(s, c).len() ==> !(#[trigger] split(s, c)[i]).contains(c),
    decreases s.len(),
{
    let all = split(s, c);
    if s.len() > 0 {
        let t = s.drop_last();
        law_what_is_split_is_joined_again(t, c);
        let head = split(t, c);
        if s.last() == c {
            lemma_joined_push(head, Seq::empty(), seq![c]);
            assert(joined(all, seq![c]) =~= s);
        } else {
            let grown = head.last().push(s.last());
            let rest = head.drop_last();
            if rest.len() > 0 {
                lemma_joined_push(rest, head.last(), seq![c]);
                lemma_joined_push(rest, grown, seq![c]);
                assert(rest.push(head.last()) =~= head);
                assert(rest.push(grown) =~= all);
            } else {
                assert(head =~= seq![head.last()]);
                assert(all =~= seq![grown]);
            }
            assert(s =~= t.push(s.last()));
            assert(joined(all, seq![c]) =~= s);
            assert forall|i: int| 0 <= i < all.len() implies !(#[trigger] all[i]).contains(c) by {
                if i < rest.len() {
                    assert(all[i] == head[i]);
                } else {
                    assert(!head[head.len() - 1].contains(c));
                    assert forall|j: int| 0 <= j < grown.len() implies grown[j] != c by {
                        if j < head.last().len() {
                            assert(head.last().contains(head.last()[j]));
                        }
                    }
                }
            }
        }
    } else {
        assert(joined(all, seq![c]) =~= s);
    }
}

/// Joining puts the separator between the texts, as often as there is a between, and
/// adds nothing else.
pub proof fn law_joined_texts_follow_each_other(
    x: Seq<Seq<char>>,
    y: Seq<Seq<char>>,
    sep: Seq<char>,
)
    requires
        x.len() > 0,
        y.len() > 0,
    ensures
        joined(x + y, sep) == joined(x, sep) + sep + joined(y, sep),
        x.len() == 1 ==> joined(x, sep) == x[0],
    decreases y.len(),
{
    if y.len() == 1 {
        assert(x + y =~= x.push(y[0]));
        lemma_joined_push(x, y[0], sep);
    } else {
        law_joined_texts_follow_each_other(x, y.drop_last(), sep);
        assert(x + y =~= (x + y.drop_last()).push(y.last()));
        lemma_joined_push(x + y.drop_last(), y.last(), sep);
        assert(joined(x + y, sep) =~= joined(x, sep) + sep + joined(y, sep));
    }
}

/// Whether `w` is a word: not empty, and without white space.
pub open spec fn is_word(w: Seq<char>) -> bool {
    w.len() > 0 && forall|i: int| 0 <= i < w.len() ==> !is_space(#[trigger] w[i])
}

proof fn lemma_words_joined(ws: Seq<Seq<char>>)
    requires
        ws.len() > 0,
        forall|i: int| 0 <= i < ws.len() ==> is_word(#[trigger] ws[i]),
    ensures
        split(joined(ws, seq![' ']), ' ') == ws,
        forall|i: int|
            0 <= i < joined(ws, seq![' ']).len() && is_space(#[trigger] joined(ws, seq![' '])[i])
                ==> joined(ws, seq![' '])[i] == ' ',
    decreases ws.len(),
{
    let x = ws.last();
    assert(is_word(ws[ws.len() - 1]));
    assert(!x.contains(' ')) by {
        if x.contains(' ') {
            let k = choose|k: int| 0 <= k < x.len() && x[k] == ' ';
            assert(!is_space(x[k]));
        }
    }
    if ws.len() == 1 {
        lemma_split_none(x, ' ');
        assert(ws =~= seq![x]);
    } else {
        let head = ws.drop_last();
        assert forall|i: int| 0 <= i < head.len() implies is_word(#[trigger] head[i]) by {
            assert(head[i] == ws[i]);
        }
        lemma_words_joined(head);
        let front = joined(head, seq![' ']);
        let all = joined(ws, seq![' ']);
        assert(all =~= front.push(' ') + x);
        lemma_split_end(front, ' ');
        lemma_split_more(front.push(' '), x, ' ');
        assert(head.push(Seq::<char>::empty()).drop_last() =~= head);
        assert(Seq::<char>::empty() + x =~= x);
        assert(head.push(x) =~= ws);
        assert forall|i: int| 0 <= i < all.len() && is_space(#[trigger] all[i]) implies all[i]
            == ' ' by {
            if i < front.len() {
                assert(all[i] == front[i]);
            } else if i > front.len() {
                assert(all[i] == x[i - front.len() - 1]);
            }
        }
    }
}

/// Words with a blank between them are read back.
pub proof fn law_words_are_read_back(ws: Seq<Seq<char>>)
    requires
        ws.len() > 0,
        forall|i: int| 0 <= i < ws.len() ==> is_word(#[trigger] ws[i]),
    ensures
        words(joined(ws, seq![' '])) == ws,
{
    let s = joined(ws, seq![' ']);
    let f = |c: char|
        if is_space(c) {
            ' '
        } else {
            c
        };
    lemma_words_joined(ws);
    assert(s.map_values(f) =~= s);
    lemma_all_kept(ws);
}

proof fn lemma_all_kept(ws: Seq<Seq<char>>)
    requires
        forall|i: int| 0 <= i < ws.len() ==> (#[trigger] ws[i]).len() > 0,
    ensures
        nonempty(ws) == ws,
    decreases ws.len(),
{
    reveal(Seq::filter);
    if ws.len() > 0 {
        let head = ws.drop_last();
        assert forall|i: int| 0 <= i < head.len() implies (#[trigger] head[i]).len() > 0 by {
            assert(head[i] == ws[i]);
        }
        lemma_all_kept(head);
        assert(ws[ws.len() - 1].len() > 0);
        assert(head.push(ws.last()) =~= ws);
    }
}

/// A number that is set to the right and has a blank behind it is the number again
/// once it is trimmed.
pub proof fn lemma_trim_padded(s: Seq<char>, width: int)
    requires
        s.len() > 0,
        forall|i: int| 0 <= i < s.len() ==> !is_space(#[trigger] s[i]),
    ensures
        trim(right(s, width).push(' ')) == s,
{
    let n = if width > s.len() {
        width - s.len()
    } else {
        0
    };
    law_padding_fills_up_to_the_width(s, width);
    let t = right(s, width).push(' ');
    assert(t.skip(n) =~= s.push(' ')) by {
        assert(right(s, width).skip(n) == s);
    }
    assert forall|i: int| 0 <= i < n implies t[i] == ' ' by {
        assert(right(s, width)[i] == ' ');
    }
    lemma_skip_blanks(t, n);
    assert(t.skip(n)[0] == s[0]);
    assert(trim_start(t) == s.push(' '));
    assert(s.push(' ').drop_last() =~= s);
    assert(!is_space(s[s.len() - 1]));
    assert(trim_end(s) == s);
}

proof fn lemma_skip_blanks(t: Seq<char>, n: int)
    requires
        0 <= n < t.len(),
        forall|i: int| 0 <= i < n ==> t[i] == ' ',
        !is_space(t[n]),
    ensures
        trim_start(t) == t.skip(n),
    decreases n,
{
    if n > 0 {
        let r = t.drop_first();
        assert(r[n - 1] == t[n]);
        lemma_skip_blanks(r, n - 1);
        assert(r.skip(n - 1) =~= t.skip(n));
    } else {
        assert(t.skip(0) =~= t);
    }
}

} // verus!
