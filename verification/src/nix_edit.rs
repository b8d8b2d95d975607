//! Rewriting the `url` of one input in a `flake.nix`.
//!
//! Merging two identities that differ only by `ref` means changing what a
//! project *declares*, not just what it resolved to. The declaration lives in
//! `flake.nix`, and that file is hand-written and hand-formatted, so the edit is
//! textual and surgical: find the one string literal that is this input's URL,
//! replace it, leave every other byte alone.
//!
//! There is no Nix parser here on purpose. Unrecognized shapes are *refused*
//! rather than guessed at: [`find_url`] returns `None` and the caller reports the
//! project as skipped, which is recoverable. A bad guess would silently corrupt a
//! file the user maintains by hand, which is not.
//!
//! What a `url` is called in full decides whose it is: the names of the blocks it
//! stands in, one word each, and the path it ends, together have to read
//! `inputs.<name>.url`. The four shapes below are the ones real flakes use:
//!
//! ```nix
//! inputs = { nixpkgs.url = "github:nixos/nixpkgs"; };      # attribute in the block
//! inputs.nixpkgs.url = "github:nixos/nixpkgs";             # dotted path
//! inputs = { nixpkgs = { url = "..."; }; };                # nested set
//! inputs = { nixpkgs = {                                   # nested set, many lines
//!   url = "...";
//!   inputs.foo.follows = "bar";
//! }; };
//! ```
use crate::command;
use crate::command::{Invocation, Ran};
use crate::paths;
use crate::text;
use vstd::prelude::*;
use vstd::utf8::*;

verus! {

// ---------------------------------------------------------------------------
// What the text of a flake says
// ---------------------------------------------------------------------------

/// Whether a character is alphabetic or numeric in Unicode.
pub uninterp spec fn alphanumeric(c: char) -> bool;

/// `char::is_alphanumeric` decides by the Unicode tables alone, so its answer is
/// named by the character; nothing more is claimed of it.
pub assume_specification[ char::is_alphanumeric ](c: char) -> (r: bool)
    ensures
        r == alphanumeric(c),
;

/// Whether `c` can appear in a Nix attribute path (identifier characters plus the
/// separators that make up a dotted path like `inputs.nixpkgs.url`).
pub open spec fn is_attr(c: char) -> bool {
    ||| c == '_'
    ||| c == '-'
    ||| c == '\''
    ||| c == '.'
    ||| if (c as u32) < 128 {
        'a' <= c <= 'z' || 'A' <= c <= 'Z' || '0' <= c <= '9'
    } else {
        alphanumeric(c)
    }
}

/// Where the run of attribute-path characters that ends at `end` begins.
pub open spec fn path_start(s: Seq<char>, end: int) -> int
    decreases end,
{
    if 0 < end && is_attr(s[end - 1]) {
        path_start(s, end - 1)
    } else {
        end
    }
}

/// Just past the first `pat` at or after `i`, or the end of the text.
pub open spec fn past(s: Seq<char>, pat: Seq<char>, i: int) -> int {
    match text::find_from(s, pat, i) {
        Some(k) => k + pat.len(),
        None => s.len() as int,
    }
}

/// Just past the quote that closes the string whose contents begin at `i`. A
/// backslash takes the next character with it.
pub open spec fn string_end(s: Seq<char>, i: int) -> Option<int>
    decreases s.len() + 1 - i,
{
    if i < 0 || i >= s.len() {
        None
    } else if s[i] == '"' {
        Some(i + 1)
    } else if s[i] == '\\' {
        string_end(s, i + 2)
    } else {
        string_end(s, i + 1)
    }
}

/// Where the comment or string that begins at `i` ends, if one begins there.
pub open spec fn opaque_end(s: Seq<char>, i: int) -> Option<int> {
    if s[i] == '#' {
        match text::find_from(s, seq!['\n'], i) {
            Some(k) => Some(k),
            None => Some(s.len() as int),
        }
    } else if text::occurs_at(s, seq!['/', '*'], i) {
        Some(past(s, seq!['*', '/'], i + 2))
    } else if text::occurs_at(s, seq!['\'', '\''], i) {
        Some(past(s, seq!['\'', '\''], i + 2))
    } else if s[i] == '"' {
        match string_end(s, i + 1) {
            Some(k) => Some(k),
            None => Some(s.len() as int),
        }
    } else {
        None
    }
}

/// Whether the word `url` stands at `i` as the last component of an attribute
/// path, rather than as the tail of a longer word.
pub open spec fn is_url_word(s: Seq<char>, i: int) -> bool {
    &&& text::occurs_at(s, seq!['u', 'r', 'l'], i)
    &&& i > 0 ==> !is_attr(s[i - 1]) || s[i - 1] == '.'
}

/// Where the code resumes after what stands at `i`.
pub open spec fn next(s: Seq<char>, i: int) -> int {
    match opaque_end(s, i) {
        Some(k) => k,
        None => if is_url_word(s, i) {
            i + 3
        } else {
            i + 1
        },
    }
}

/// The first position at or after `i` that holds no blank or line break.
pub open spec fn skip_blanks(s: Seq<char>, i: int) -> int
    decreases s.len() - i,
{
    if 0 <= i < s.len() && (s[i] == ' ' || 0x09 <= s[i] as u32 <= 0x0d) {
        skip_blanks(s, i + 1)
    } else {
        i
    }
}

/// Where the quote stands that opens the string assigned to the `url` at `i`, if
/// a string is assigned to it.
pub open spec fn assigned(s: Seq<char>, i: int) -> Option<int> {
    let eq = skip_blanks(s, i + 3);
    let value = skip_blanks(s, eq + 1);
    if eq < s.len() && s[eq] == '=' && value < s.len() && s[value] == '"' {
        Some(value)
    } else {
        None
    }
}

/// The attribute path bound by `path = {`, for the brace at `i`.
pub open spec fn bound_name(s: Seq<char>, i: int) -> Option<Seq<char>> {
    let head = text::trim_end(s.take(i));
    if head.len() > 0 && head.last() == '=' {
        let lhs = text::trim_end(head.drop_last());
        let start = path_start(lhs, lhs.len() as int);
        if start < lhs.len() {
            Some(lhs.skip(start))
        } else {
            None
        }
    } else {
        None
    }
}

/// The open blocks behind what stands at `i`, given those before it. Each is
/// known by the name it is bound to, if it is bound to one.
pub open spec fn blocks_after(
    s: Seq<char>,
    i: int,
    blocks: Seq<Option<Seq<char>>>,
) -> Seq<Option<Seq<char>>> {
    if opaque_end(s, i) is Some {
        blocks
    } else if s[i] == '{' {
        blocks.push(bound_name(s, i))
    } else if s[i] == '}' && blocks.len() > 0 {
        blocks.drop_last()
    } else {
        blocks
    }
}

/// What the names of the open blocks put before a name, with a dot behind each:
/// `inputs.nixpkgs.` within `inputs = { nixpkgs = { … }; }`. The outermost block is
/// the flake itself and needs no name; within any other block without one, or within
/// one that is bound to a dotted path, nothing has a name that is recognized.
pub open spec fn home(blocks: Seq<Option<Seq<char>>>) -> Option<Seq<char>>
    decreases blocks.len(),
{
    if blocks.len() == 0 {
        Some(Seq::empty())
    } else {
        match blocks.last() {
            Some(name) => match home(blocks.drop_last()) {
                Some(above) => if name.contains('.') {
                    None
                } else {
                    Some(above + name + seq!['.'])
                },
                None => None,
            },
            None => if blocks.len() == 1 {
                Some(Seq::empty())
            } else {
                None
            },
        }
    }
}

/// What the `url` at `i` is called in full: the names of the blocks it stands in,
/// and then the path it is the last component of.
pub open spec fn full_name(s: Seq<char>, i: int, blocks: Seq<Option<Seq<char>>>) -> Option<
    Seq<char>,
> {
    match home(blocks) {
        Some(above) => Some(above + s.subrange(path_start(s, i), i + 3)),
        None => None,
    }
}

/// What the url of the input `name` is called.
pub open spec fn url_name(name: Seq<char>) -> Seq<char> {
    seq!['i', 'n', 'p', 'u', 't', 's', '.'] + name + seq!['.', 'u', 'r', 'l']
}

/// Whether the `url` at `i` is that of the input `name`: its full name says so. A name
/// that itself holds a dot can only be declared in quotes, and is not recognized.
pub open spec fn belongs(
    s: Seq<char>,
    i: int,
    blocks: Seq<Option<Seq<char>>>,
    name: Seq<char>,
) -> bool {
    &&& !name.contains('.')
    &&& full_name(s, i, blocks) == Some(url_name(name))
}

/// Whether the code at `i` assigns a string to the url of the input `name`.
pub open spec fn declares(
    s: Seq<char>,
    i: int,
    blocks: Seq<Option<Seq<char>>>,
    name: Seq<char>,
) -> bool {
    &&& opaque_end(s, i) is None
    &&& is_url_word(s, i)
    &&& assigned(s, i) is Some
    &&& belongs(s, i, blocks, name)
}

/// Whether a literal can be replaced as it stands: it holds no escape and no
/// interpolation.
pub open spec fn is_plain(text: Seq<char>) -> bool {
    !text.contains('\\') && !text::has(text, seq!['$', '{'])
}

/// The contents of the string that opens at `quote`, as a range of positions. An
/// interpolated, escaped or unterminated one is refused.
pub open spec fn literal(s: Seq<char>, quote: int) -> Option<(int, int)> {
    match string_end(s, quote + 1) {
        Some(k) => if is_plain(s.subrange(quote + 1, k - 1)) {
            Some((quote + 1, k - 1))
        } else {
            None
        },
        None => None,
    }
}

pub proof fn lemma_string_end(s: Seq<char>, i: int)
    requires
        0 <= i,
    ensures
        string_end(s, i) matches Some(k) ==> i < k <= s.len() && s[k - 1] == '"',
    decreases s.len() + 1 - i,
{
    if i < s.len() && s[i] != '"' {
        lemma_string_end(s, i + if s[i] == '\\' {
            2int
        } else {
            1int
        });
    }
}

/// Scanning always moves forward, and never past the end.
pub proof fn lemma_next(s: Seq<char>, i: int)
    requires
        0 <= i < s.len(),
    ensures
        i < next(s, i) <= s.len(),
{
    text::lemma_find_from(s, seq!['\n'], i);
    text::lemma_find_from(s, seq!['*', '/'], i + 2);
    text::lemma_find_from(s, seq!['\'', '\''], i + 2);
    lemma_string_end(s, i + 1);
    if s[i] == '#' {
        if let Some(k) = text::find_from(s, seq!['\n'], i) {
            assert(s.subrange(k, k + 1)[0] == s[k]);
        }
    }
}

/// The url of the input `name` in the code from `i` on, as a range of positions:
/// the literal of the first declaration.
pub open spec fn url_from(
    s: Seq<char>,
    i: int,
    blocks: Seq<Option<Seq<char>>>,
    name: Seq<char>,
) -> Option<(int, int)>
    decreases s.len() - i,
{
    if i < 0 || i >= s.len() {
        None
    } else if declares(s, i, blocks, name) {
        literal(s, assigned(s, i)->0)
    } else {
        proof {
            lemma_next(s, i);
        }
        url_from(s, next(s, i), blocks_after(s, i, blocks), name)
    }
}

/// The url of the input `name`, as a range of positions in the text.
pub open spec fn url_in(s: Seq<char>, name: Seq<char>) -> Option<(int, int)> {
    url_from(s, 0, Seq::empty(), name)
}

// ---------------------------------------------------------------------------
// Finding it
// ---------------------------------------------------------------------------

/// The located URL literal: the byte range of its *contents*, without quotes.
#[derive(Debug, Clone, Copy, PartialEq, Eq, Structural)]
pub struct UrlSpan {
    pub start: usize,
    pub end: usize,
}

impl UrlSpan {
    /// The text the span covers.
    pub fn text<'a>(&self, source: &'a str) -> (r: &'a str)
        requires
            self.start <= self.end <= encode_utf8(source@).len(),
            is_char_boundary(encode_utf8(source@), self.start as int),
            is_char_boundary(encode_utf8(source@), self.end as int),
        ensures
            encode_utf8(r@) == encode_utf8(source@).subrange(self.start as int, self.end as int),
    {
        proof {
            encode_utf8_valid_utf8(source@);
            text::lemma_boundary_suffix(encode_utf8(source@), self.start as int, self.end as int);
        }
        let tail = source.split_at(self.start).1;
        let r = tail.split_at(self.end - self.start).0;
        assert(encode_utf8(r@) == encode_utf8(source@).subrange(self.start as int, self.end as int));
        r
    }
}

fn is_attr_char(c: char) -> (r: bool)
    ensures
        r == is_attr(c),
{
    if c == '_' || c == '-' || c == '\'' || c == '.' {
        return true;
    }
    if (c as u32) < 128 {
        ('a' <= c && c <= 'z') || ('A' <= c && c <= 'Z') || ('0' <= c && c <= '9')
    } else {
        c.is_alphanumeric()
    }
}

fn find_path_start(s: &Vec<char>, end: usize) -> (r: usize)
    requires
        end <= s.len(),
    ensures
        r == path_start(s@, end as int),
        r <= end,
{
    let mut i: usize = end;
    while i > 0 && is_attr_char(s[i - 1])
        invariant
            i <= end <= s.len(),
            path_start(s@, i as int) == path_start(s@, end as int),
        decreases i,
    {
        i -= 1;
    }
    i
}

fn find_string_end(s: &Vec<char>, i: usize) -> (r: Option<usize>)
    requires
        i <= s.len(),
    ensures
        r is Some <==> string_end(s@, i as int) is Some,
        r matches Some(k) ==> string_end(s@, i as int) == Some(k as int),
{
    let n: usize = s.len();
    let mut j: usize = i;
    while j < n
        invariant
            n == s.len(),
            string_end(s@, j as int) == string_end(s@, i as int),
        decreases n - j,
    {
        if s[j] == '"' {
            return Some(j + 1);
        }
        if s[j] == '\\' {
            if n - j <= 1 {
                assert(string_end(s@, j + 2) is None);
                return None;
            }
            j += 2;
        } else {
            j += 1;
        }
    }
    None
}

fn pair(a: char, b: char) -> (r: Vec<char>)
    ensures
        r@ == seq![a, b],
{
    let mut r: Vec<char> = Vec::new();
    r.push(a);
    r.push(b);
    assert(r@ == seq![a, b]);
    r
}

/// Just past the first `pat` at or after `i`, or the end of the text.
fn find_past(s: &Vec<char>, pat: &Vec<char>, i: usize) -> (r: usize)
    ensures
        r == past(s@, pat@, i as int),
{
    match text::position_from(s, pat, i) {
        Some(k) => {
            assert(k + pat@.len() <= s.len());
            k + pat.len()
        },
        None => s.len(),
    }
}

fn find_opaque_end(s: &Vec<char>, i: usize) -> (r: Option<usize>)
    requires
        i < s.len(),
    ensures
        r is Some <==> opaque_end(s@, i as int) is Some,
        r matches Some(k) ==> opaque_end(s@, i as int) == Some(k as int),
{
    let c = s[i];
    if c == '#' {
        let mut newline: Vec<char> = Vec::new();
        newline.push('\n');
        assert(newline@ == seq!['\n']);
        return match text::position_from(s, &newline, i) {
            Some(k) => Some(k),
            None => Some(s.len()),
        };
    }
    let open = pair('/', '*');
    if text::matches_at(s, &open, i) {
        let close = pair('*', '/');
        return Some(find_past(s, &close, i + 2));
    }
    let quotes = pair('\'', '\'');
    if text::matches_at(s, &quotes, i) {
        return Some(find_past(s, &quotes, i + 2));
    }
    if c == '"' {
        return match find_string_end(s, i + 1) {
            Some(k) => Some(k),
            None => Some(s.len()),
        };
    }
    None
}

/// Whether `url` stands at `i` as a whole word.
///
/// Without the look at the character before, a longer name that ends in `url`
/// would be taken for it.
fn url_word_at(s: &Vec<char>, i: usize) -> (r: bool)
    requires
        i < s.len(),
    ensures
        r == is_url_word(s@, i as int),
{
    let mut word = pair('u', 'r');
    word.push('l');
    assert(word@ == seq!['u', 'r', 'l']);
    text::matches_at(s, &word, i) && (i == 0 || !is_attr_char(s[i - 1]) || s[i - 1] == '.')
}

fn find_code(s: &Vec<char>, i: usize) -> (r: usize)
    requires
        i <= s.len(),
    ensures
        r == skip_blanks(s@, i as int),
        i <= r <= s.len(),
{
    let mut j: usize = i;
    while j < s.len() && (s[j] == ' ' || (0x09 <= s[j] as u32 && s[j] as u32 <= 0x0d))
        invariant
            i <= j <= s.len(),
            skip_blanks(s@, j as int) == skip_blanks(s@, i as int),
        decreases s.len() - j,
    {
        j += 1;
    }
    j
}

fn find_assigned(s: &Vec<char>, i: usize) -> (r: Option<usize>)
    requires
        i + 3 <= s.len(),
    ensures
        r is Some <==> assigned(s@, i as int) is Some,
        r matches Some(k) ==> assigned(s@, i as int) == Some(k as int) && k < s.len(),
{
    let eq = find_code(s, i + 3);
    if eq >= s.len() || s[eq] != '=' {
        return None;
    }
    let value = find_code(s, eq + 1);
    if value >= s.len() || s[value] != '"' {
        return None;
    }
    Some(value)
}

/// The views of a stack of optional texts.
pub open spec fn names(v: Seq<Option<String>>) -> Seq<Option<Seq<char>>> {
    v.map_values(|o: Option<String>| text::view_of(o))
}

/// The attribute name bound by `name = {` immediately before the brace at `i`.
fn preceding_binding(s: &Vec<char>, i: usize) -> (r: Option<String>)
    requires
        i <= s.len(),
    ensures
        text::view_of(r) == bound_name(s@, i as int),
{
    let end = text::trimmed_end(s, i);
    if end == 0 || s[end - 1] != '=' {
        return None;
    }
    assert(s@.take(end as int).drop_last() == s@.take(end - 1));
    let stop = text::trimmed_end(s, end - 1);
    let start = find_path_start(s, stop);
    proof {
        lemma_path_start_take(s@, stop as int, stop as int);
    }
    if start == stop {
        return None;
    }
    let name = text::slice_text(s, start, stop);
    assert(name@ == s@.take(stop as int).skip(start as int));
    Some(name)
}

proof fn lemma_path_start_take(s: Seq<char>, n: int, end: int)
    requires
        0 <= end <= n <= s.len(),
    ensures
        path_start(s.take(n), end) == path_start(s, end),
    decreases end,
{
    if end > 0 && is_attr(s[end - 1]) {
        lemma_path_start_take(s, n, end - 1);
    }
}

/// What the names of the open blocks put before a name.
fn home_of(blocks: &Vec<Option<String>>) -> (r: Option<String>)
    ensures
        text::view_of(r) == home(names(blocks@)),
{
    let mut above = String::new();
    let mut k: usize = 0;
    let ghost all = names(blocks@);
    assert(all.take(0) == Seq::<Option<Seq<char>>>::empty());
    while k < blocks.len()
        invariant
            k <= blocks@.len(),
            all == names(blocks@),
            home(all.take(k as int)) == Some(above@),
        decreases blocks.len() - k,
    {
        let ghost now = all.take(k + 1);
        assert(now.drop_last() == all.take(k as int));
        assert(now.last() == text::view_of(blocks@[k as int]));
        match &blocks[k] {
            Some(name) => {
                if text::contains_char(name.as_str(), '.') {
                    proof {
                        lemma_nameless(all, k + 1);
                    }
                    return None;
                }
                above = text::cat3(above.as_str(), name.as_str(), ".");
                proof {
                    reveal_strlit(".");
                    assert("."@ == seq!['.']);
                }
            },
            None => {
                if k > 0 {
                    proof {
                        lemma_nameless(all, k + 1);
                    }
                    return None;
                }
            },
        }
        k += 1;
    }
    assert(all.take(k as int) == all);
    Some(above)
}

/// What is not recognized in the outer blocks is not in those within them.
proof fn lemma_nameless(blocks: Seq<Option<Seq<char>>>, n: int)
    requires
        0 < n <= blocks.len(),
        home(blocks.take(n)) is None,
    ensures
        home(blocks) is None,
    decreases blocks.len(),
{
    if n < blocks.len() {
        assert(blocks.drop_last().take(n) == blocks.take(n));
        lemma_nameless(blocks.drop_last(), n);
    } else {
        assert(blocks.take(n) == blocks);
    }
}

fn url_belongs(s: &Vec<char>, i: usize, blocks: &Vec<Option<String>>, name: &str) -> (r: bool)
    requires
        i + 3 <= s.len(),
    ensures
        r == belongs(s@, i as int, names(blocks@), name@),
{
    if text::contains_char(name, '.') {
        return false;
    }
    let start = find_path_start(s, i);
    let path = text::slice_text(s, start, i + 3);
    let wanted = text::cat3("inputs.", name, ".url");
    proof {
        reveal_strlit("inputs.");
        reveal_strlit(".url");
        assert("inputs."@ == seq!['i', 'n', 'p', 'u', 't', 's', '.']);
        assert(".url"@ == seq!['.', 'u', 'r', 'l']);
    }
    match home_of(blocks) {
        Some(above) => text::same(
            text::cat2(above.as_str(), path.as_str()).as_str(),
            wanted.as_str(),
        ),
        None => false,
    }
}

fn plain_between(s: &Vec<char>, a: usize, b: usize) -> (r: bool)
    requires
        a <= b <= s.len(),
    ensures
        r == is_plain(s@.subrange(a as int, b as int)),
{
    let inner = text::slice_text(s, a, b);
    let chars = text::to_chars(inner.as_str());
    let dollar = pair('$', '{');
    proof {
        text::lemma_find_from(inner@, seq!['$', '{'], 0);
    }
    if text::contains_char(inner.as_str(), '\\') {
        return false;
    }
    match text::position_from(&chars, &dollar, 0) {
        Some(k) => {
            assert(text::occurs_at(inner@, seq!['$', '{'], k as int));
            false
        },
        None => true,
    }
}

/// The contents of the string that opens at `quote`, if they can be replaced.
fn find_literal(s: &Vec<char>, quote: usize) -> (r: Option<(usize, usize)>)
    requires
        quote < s.len(),
    ensures
        match literal(s@, quote as int) {
            Some((a, b)) => r == Some((a as usize, b as usize)) && 0 <= a <= b <= s.len(),
            None => r is None,
        },
{
    proof {
        lemma_string_end(s@, quote + 1);
    }
    match find_string_end(s, quote + 1) {
        Some(k) => if plain_between(s, quote + 1, k - 1) {
            Some((quote + 1, k - 1))
        } else {
            None
        },
        None => None,
    }
}

/// The positions of `name`'s url in `s`.
fn locate(s: &Vec<char>, name: &str) -> (r: Option<(usize, usize)>)
    ensures
        match url_in(s@, name@) {
            Some((a, b)) => r == Some((a as usize, b as usize)) && 0 <= a <= b <= s.len(),
            None => r is None,
        },
{
    // The blocks we are inside, so that a bare `url = …` can be attributed to
    // the input whose block it stands in.
    let mut blocks: Vec<Option<String>> = Vec::new();
    let mut i: usize = 0;
    assert(names(blocks@) == Seq::<Option<Seq<char>>>::empty());
    while i < s.len()
        invariant
            i <= s.len(),
            url_from(s@, i as int, names(blocks@), name@) == url_in(s@, name@),
        decreases s.len() - i,
    {
        let ghost before = blocks@;
        proof {
            lemma_next(s@, i as int);
        }
        if let Some(end) = find_opaque_end(s, i) {
            i = end;
            continue;
        }
        if url_word_at(s, i) {
            if let Some(quote) = find_assigned(s, i) {
                if url_belongs(s, i, &blocks, name) {
                    return find_literal(s, quote);
                }
            }
            assert(s@.subrange(i as int, i + 3)[0] == s@[i as int]);
            i += 3;
            continue;
        }
        if s[i] == '{' {
            let bound = preceding_binding(s, i);
            blocks.push(bound);
            assert(names(blocks@) == names(before).push(text::view_of(bound)));
        } else if s[i] == '}' && blocks.len() > 0 {
            let _ = blocks.pop();
            assert(names(blocks@) == names(before).drop_last());
        }
        i += 1;
    }
    None
}

/// Find the string literal holding `input_name`'s URL.
///
/// Every `url` assignment in the code is considered in turn; the first that is called
/// `inputs.<input_name>.url` in full decides, in one of the four shapes. `None` when nothing matches, or when what matches holds an escape or
/// an interpolation or does not end, which the caller must treat as "cannot edit this
/// file", not "no change needed".
pub fn find_url(source: &str, input_name: &str) -> (r: Option<UrlSpan>)
    ensures
        match url_in(source@, input_name@) {
            Some((a, b)) => r matches Some(span) && span.start == text::byte_at(source@, a) && span.end
                == text::byte_at(source@, b),
            None => r is None,
        },
{
    let s = text::to_chars(source);
    let bytes = source.as_bytes();
    assert(bytes@.len() == bytes.len());
    match locate(&s, input_name) {
        Some((a, b)) => Some(
            UrlSpan { start: text::byte_offset(&s, a), end: text::byte_offset(&s, b) },
        ),
        None => None,
    }
}

// ---------------------------------------------------------------------------
// What holds of what is found
// ---------------------------------------------------------------------------

/// The blocks open at `i`, when scanning the code from `from` comes to stand at
/// `i`; `None` when it does not, because `i` lies in a comment, in a string or
/// within a word.
pub open spec fn blocks_at(
    s: Seq<char>,
    from: int,
    blocks: Seq<Option<Seq<char>>>,
    i: int,
) -> Option<Seq<Option<Seq<char>>>>
    decreases s.len() - from,
{
    if from == i {
        Some(blocks)
    } else if from < 0 || from >= s.len() {
        None
    } else {
        proof {
            lemma_next(s, from);
        }
        blocks_at(s, next(s, from), blocks_after(s, from, blocks), i)
    }
}

/// Whether the code at `i` declares the url of `name`, in its place in the file.
pub open spec fn declared_at(s: Seq<char>, i: int, name: Seq<char>) -> bool {
    &&& 0 <= i < s.len()
    &&& blocks_at(s, 0, Seq::empty(), i) matches Some(blocks)
    &&& declares(s, i, blocks, name)
}

proof fn lemma_url_from(
    s: Seq<char>,
    from: int,
    blocks: Seq<Option<Seq<char>>>,
    name: Seq<char>,
    a: int,
    b: int,
) -> (i: int)
    requires
        0 <= from,
        url_from(s, from, blocks, name) == Some((a, b)),
    ensures
        from <= i < s.len(),
        blocks_at(s, from, blocks, i) matches Some(bi) && declares(s, i, bi, name),
        assigned(s, i) == Some(a - 1),
        literal(s, a - 1) == Some((a, b)),
        forall|j: int|
            from <= j < i ==> !(#[trigger] blocks_at(s, from, blocks, j) matches Some(bj)
                && declares(s, j, bj, name)),
    decreases s.len() - from,
{
    if declares(s, from, blocks, name) {
        from
    } else {
        lemma_next(s, from);
        let after = blocks_after(s, from, blocks);
        let i = lemma_url_from(s, next(s, from), after, name, a, b);
        assert forall|j: int| from <= j < i implies !(#[trigger] blocks_at(s, from, blocks, j)
            matches Some(bj) && declares(s, j, bj, name)) by {
            if from < j < next(s, from) {
                lemma_not_before(s, next(s, from), after, j);
            } else if j > from {
                assert(blocks_at(s, next(s, from), after, j) == blocks_at(s, from, blocks, j));
            }
        }
        i
    }
}

proof fn lemma_not_before(s: Seq<char>, from: int, blocks: Seq<Option<Seq<char>>>, j: int)
    requires
        0 <= j < from,
    ensures
        blocks_at(s, from, blocks, j) is None,
    decreases s.len() - from,
{
    if from < s.len() {
        lemma_next(s, from);
        lemma_not_before(s, next(s, from), blocks_after(s, from, blocks), j);
    }
}

proof fn lemma_string_contents(s: Seq<char>, from: int, k: int, j: int)
    requires
        0 <= from <= j < k - 1,
        string_end(s, from) == Some(k),
        forall|x: int| from <= x < k - 1 ==> s[x] != '\\',
    ensures
        s[j] != '"',
    decreases s.len() - from,
{
    lemma_string_end(s, from);
    if from < j {
        lemma_string_contents(s, from + 1, k, j);
    }
}

/// What is found is a whole string literal, quotes excluded, that can be replaced
/// as it stands, and it is the one assigned by the first declaration of the
/// input's url that the code makes: not one in a comment or in a string, and one that
/// is called `inputs.<name>.url` in full, so that it is not that of another input,
/// however much the names look alike.
pub proof fn law_found_url_is_the_first_declared(s: Seq<char>, name: Seq<char>, a: int, b: int)
    requires
        url_in(s, name) == Some((a, b)),
    ensures
        0 < a <= b < s.len(),
        s[a - 1] == '"',
        s[b] == '"',
        is_plain(s.subrange(a, b)),
        !s.subrange(a, b).contains('"'),
        exists|i: int|
            #![trigger declared_at(s, i, name)]
            declared_at(s, i, name) && full_name(s, i, blocks_at(s, 0, Seq::empty(), i)->0)
                == Some(url_name(name)) && assigned(s, i) == Some(a - 1) && forall|j: int|
                0 <= j < i ==> !#[trigger] declared_at(s, j, name),
{
    let i = lemma_url_from(s, 0, Seq::empty(), name, a, b);
    lemma_string_end(s, a);
    lemma_skip_blanks(s, i + 3);
    lemma_skip_blanks(s, skip_blanks(s, i + 3) + 1);
    assert(declared_at(s, i, name));
    let text = s.subrange(a, b);
    assert forall|x: int| a <= x < b implies s[x] != '\\' by {
        assert(text[x - a] == s[x]);
        assert(text.contains(text[x - a]));
    }
    assert forall|x: int| 0 <= x < text.len() implies text[x] != '"' by {
        lemma_string_contents(s, a, b + 1, a + x);
    }
}

proof fn lemma_declared_from(
    s: Seq<char>,
    from: int,
    blocks: Seq<Option<Seq<char>>>,
    name: Seq<char>,
    i: int,
)
    requires
        0 <= from <= i < s.len(),
        blocks_at(s, from, blocks, i) matches Some(bi) && declares(s, i, bi, name),
        forall|j: int|
            from <= j < i ==> !(#[trigger] blocks_at(s, from, blocks, j) matches Some(bj)
                && declares(s, j, bj, name)),
    ensures
        url_from(s, from, blocks, name) == literal(s, assigned(s, i)->0),
    decreases s.len() - from,
{
    if from < i {
        let after = blocks_after(s, from, blocks);
        assert(blocks_at(s, from, blocks, from) == Some(blocks));
        lemma_next(s, from);
        if next(s, from) > i {
            lemma_not_before(s, next(s, from), after, i);
        }
        assert forall|j: int| next(s, from) <= j < i implies !(#[trigger] blocks_at(
            s,
            next(s, from),
            after,
            j,
        ) matches Some(bj) && declares(s, j, bj, name)) by {
            assert(blocks_at(s, from, blocks, j) == blocks_at(s, next(s, from), after, j));
        }
        lemma_declared_from(s, next(s, from), after, name, i);
    }
}

proof fn lemma_undeclared_from(
    s: Seq<char>,
    from: int,
    blocks: Seq<Option<Seq<char>>>,
    name: Seq<char>,
)
    requires
        0 <= from,
        forall|j: int|
            from <= j < s.len() ==> !(#[trigger] blocks_at(s, from, blocks, j) matches Some(bj)
                && declares(s, j, bj, name)),
    ensures
        url_from(s, from, blocks, name) is None,
    decreases s.len() - from,
{
    if from < s.len() {
        let after = blocks_after(s, from, blocks);
        assert(blocks_at(s, from, blocks, from) == Some(blocks));
        lemma_next(s, from);
        assert forall|j: int| next(s, from) <= j < s.len() implies !(#[trigger] blocks_at(
            s,
            next(s, from),
            after,
            j,
        ) matches Some(bj) && declares(s, j, bj, name)) by {
            assert(blocks_at(s, from, blocks, j) == blocks_at(s, next(s, from), after, j));
        }
        lemma_undeclared_from(s, next(s, from), after, name);
    }
}

/// A file whose code declares no url for the input is refused, not guessed at.
pub proof fn law_undeclared_is_refused(s: Seq<char>, name: Seq<char>)
    requires
        forall|i: int| !#[trigger] declared_at(s, i, name),
    ensures
        url_in(s, name) is None,
{
    assert forall|j: int| 0 <= j < s.len() implies !(#[trigger] blocks_at(s, 0, Seq::empty(), j)
        matches Some(bj) && declares(s, j, bj, name)) by {
        assert(!declared_at(s, j, name));
    }
    lemma_undeclared_from(s, 0, Seq::empty(), name);
}

/// The first declaration decides: when its literal cannot be replaced as it
/// stands, no later one is taken in its stead.
pub proof fn law_first_declaration_decides(s: Seq<char>, name: Seq<char>, i: int)
    requires
        declared_at(s, i, name),
        forall|j: int| 0 <= j < i ==> !#[trigger] declared_at(s, j, name),
    ensures
        url_in(s, name) == literal(s, assigned(s, i)->0),
{
    assert forall|j: int| 0 <= j < i implies !(#[trigger] blocks_at(s, 0, Seq::empty(), j)
        matches Some(bj) && declares(s, j, bj, name)) by {
        assert(!declared_at(s, j, name));
    }
    lemma_declared_from(s, 0, Seq::empty(), name, i);
}

proof fn lemma_hidden(s: Seq<char>, from: int, blocks: Seq<Option<Seq<char>>>, p: int, j: int)
    requires
        0 <= from <= p < j < next(s, p),
        p < s.len(),
        blocks_at(s, from, blocks, p) is Some,
    ensures
        blocks_at(s, from, blocks, j) is None,
    decreases s.len() - from,
{
    let after = blocks_after(s, from, blocks);
    lemma_next(s, from);
    if from == p {
        lemma_not_before(s, next(s, from), after, j);
    } else {
        if next(s, from) > p {
            lemma_not_before(s, next(s, from), after, p);
        }
        lemma_hidden(s, next(s, from), after, p, j);
    }
}

/// Comments and strings are never scanned: nothing inside one is a declaration.
pub proof fn law_comments_and_strings_are_not_scanned(
    s: Seq<char>,
    name: Seq<char>,
    p: int,
    j: int,
)
    requires
        0 <= p < s.len(),
        blocks_at(s, 0, Seq::empty(), p) is Some,
        opaque_end(s, p) matches Some(end) && p < j < end,
    ensures
        !declared_at(s, j, name),
{
    lemma_hidden(s, 0, Seq::empty(), p, j);
}

/// A `url` outside the flake's `inputs` is nobody's: neither one whose full name does
/// not begin with `inputs.`, nor one in a block without a name or bound to a dotted
/// path.
pub proof fn law_a_url_outside_inputs_is_not_declared(s: Seq<char>, name: Seq<char>, i: int)
    requires
        blocks_at(s, 0, Seq::empty(), i) matches Some(blocks) && match full_name(s, i, blocks) {
            Some(full) => !text::begins(full, seq!['i', 'n', 'p', 'u', 't', 's', '.']),
            None => true,
        },
    ensures
        !declared_at(s, i, name),
{
    let full = url_name(name);
    let word = seq!['i', 'n', 'p', 'u', 't', 's', '.'];
    assert(full.subrange(0, 7) == word);
}

/// A `url` within one input's block, or on a path through it, is never that of another:
/// what overrides an input of a dependency is not the flake's own.
pub proof fn law_a_url_in_one_input_is_not_that_of_another(
    s: Seq<char>,
    name: Seq<char>,
    other: Seq<char>,
    i: int,
)
    requires
        name != other,
        !other.contains('.'),
        blocks_at(s, 0, Seq::empty(), i) matches Some(blocks) && full_name(
            s,
            i,
            blocks,
        ) matches Some(full) && text::begins(
            full,
            seq!['i', 'n', 'p', 'u', 't', 's', '.'] + other + seq!['.'],
        ),
    ensures
        !declared_at(s, i, name),
{
    if declared_at(s, i, name) {
        let full = url_name(name);
        let lead = seq!['i', 'n', 'p', 'u', 't', 's', '.'] + other + seq!['.'];
        assert(full[7int + name.len()] == '.');
        assert(lead[7int + other.len()] == '.');
        assert forall|k: int| 0 <= k < lead.len() implies full[k] == lead[k] by {
            assert(full.subrange(0, lead.len() as int)[k] == full[k]);
        }
        if other.len() < name.len() {
            assert(name[other.len() as int] == full[7int + other.len()]);
            assert(name.contains('.'));
        } else if name.len() < other.len() {
            assert(other[name.len() as int] == lead[7int + name.len()]);
            assert(other.contains('.'));
        } else {
            assert forall|k: int| 0 <= k < name.len() implies name[k] == other[k] by {
                assert(name[k] == full[7 + k]);
                assert(other[k] == lead[7 + k]);
            }
            assert(name == other);
        }
    }
}

/// No `url` is that of two inputs.
pub proof fn law_a_url_is_that_of_one_input(s: Seq<char>, a: Seq<char>, b: Seq<char>, i: int)
    requires
        declared_at(s, i, a),
        declared_at(s, i, b),
    ensures
        a == b,
{
    lemma_url_name(a, b);
}

/// Urls of different inputs are called differently.
proof fn lemma_url_name(a: Seq<char>, b: Seq<char>)
    ensures
        url_name(a) == url_name(b) ==> a == b,
{
    let x = url_name(a);
    let y = url_name(b);
    assert(x.len() == a.len() + 11);
    assert(y.len() == b.len() + 11);
    assert(a == x.subrange(7, 7int + a.len()));
    assert(b == y.subrange(7, 7int + b.len()));
}

/// A comment behind `#` reaches to the end of its line, or of the text.
pub proof fn law_a_line_comment_ends_with_its_line(s: Seq<char>, i: int, n: int)
    requires
        0 <= i < n <= s.len(),
        s[i] == '#',
        n < s.len() ==> s[n] == '\n',
        forall|k: int| i < k < n ==> #[trigger] s[k] != '\n',
    ensures
        opaque_end(s, i) == Some(n),
{
    let feed = seq!['\n'];
    text::lemma_find_from(s, feed, i);
    assert forall|k: int| i <= k < n implies !text::occurs_at(s, feed, k) by {
        assert(s.subrange(k, k + 1)[0] == s[k]);
    }
    if n < s.len() {
        assert(s.subrange(n, n + 1) =~= feed);
        assert(text::occurs_at(s, feed, n));
    }
}

/// A comment that `/*` opens ends behind the first `*/`, and a string that two quotes
/// open behind the next two; where none comes, the rest of the text belongs to it.
pub proof fn law_a_block_comment_ends_at_its_close(s: Seq<char>, i: int, n: int)
    requires
        0 <= i,
        i + 2 <= n <= s.len(),
        s[i] == '/' && s[i + 1] == '*',
        n + 2 <= s.len() ==> s[n] == '*' && s[n + 1] == '/',
        n + 2 > s.len() ==> n == s.len(),
        forall|k: int|
            i + 2 <= k < n ==> #[trigger] s[k] != '*' || k + 1 == s.len() || s[k + 1] != '/',
    ensures
        opaque_end(s, i) == Some(
            if n == s.len() {
                n
            } else {
                n + 2
            },
        ),
{
    let open = seq!['/', '*'];
    let close = seq!['*', '/'];
    assert(s.subrange(i, i + 2) =~= open);
    assert(text::occurs_at(s, open, i));
    text::lemma_find_from(s, close, i + 2);
    assert forall|k: int| i + 2 <= k < n implies !text::occurs_at(s, close, k) by {
        if k + 2 <= s.len() {
            assert(s.subrange(k, k + 2)[0] == s[k] && s.subrange(k, k + 2)[1] == s[k + 1]);
        }
    }
    if n < s.len() {
        assert(s.subrange(n, n + 2) =~= close);
        assert(text::occurs_at(s, close, n));
    }
}

/// An indented string ends behind the first two single quotes in it.
pub proof fn law_an_indented_string_ends_at_its_quotes(s: Seq<char>, i: int, n: int)
    requires
        0 <= i,
        i + 2 <= n,
        n + 2 <= s.len(),
        s[i] == '\'' && s[i + 1] == '\'',
        s[n] == '\'' && s[n + 1] == '\'',
        forall|k: int| i + 2 <= k < n ==> #[trigger] s[k] != '\'' || s[k + 1] != '\'',
    ensures
        opaque_end(s, i) == Some(n + 2),
{
    let quotes = seq!['\'', '\''];
    let open = seq!['/', '*'];
    assert(s.subrange(i, i + 2) =~= quotes);
    assert(text::occurs_at(s, quotes, i));
    assert(s.subrange(i, i + 2)[0] != open[0]);
    assert(!text::occurs_at(s, open, i));
    text::lemma_find_from(s, quotes, i + 2);
    assert forall|k: int| i + 2 <= k < n implies !text::occurs_at(s, quotes, k) by {
        assert(s.subrange(k, k + 2)[0] == s[k] && s.subrange(k, k + 2)[1] == s[k + 1]);
    }
    assert(s.subrange(n, n + 2) =~= quotes);
    assert(text::occurs_at(s, quotes, n));
}

/// A text as it stands between the quotes of a string: with a backslash before each
/// quote and each backslash.
pub open spec fn escaped(t: Seq<char>) -> Seq<char>
    decreases t.len(),
{
    if t.len() == 0 {
        Seq::empty()
    } else if t[0] == '"' || t[0] == '\\' {
        seq!['\\', t[0]] + escaped(t.drop_first())
    } else {
        seq![t[0]] + escaped(t.drop_first())
    }
}

proof fn lemma_escaped(s: Seq<char>, i: int, t: Seq<char>)
    requires
        0 <= i,
        i + escaped(t).len() < s.len(),
        s.subrange(i, i + escaped(t).len()) == escaped(t),
        s[i + escaped(t).len()] == '"',
    ensures
        string_end(s, i) == Some(i + escaped(t).len() + 1),
    decreases t.len(),
{
    let e = escaped(t);
    if t.len() > 0 {
        let rest = escaped(t.drop_first());
        let n = e.len() - rest.len();
        assert(s.subrange(i + n, i + n + rest.len()) =~= e.skip(n)) by {
            assert(s.subrange(i, i + e.len()) == e);
        }
        assert(e.skip(n) =~= rest);
        assert(s.subrange(i, i + e.len())[0] == s[i]);
        lemma_escaped(s, i + n, t.drop_first());
    }
}

/// A string ends at its closing quote, whatever stands in it: what is escaped does not
/// end it.
pub proof fn law_a_string_ends_at_its_quote(before: Seq<char>, t: Seq<char>, after: Seq<char>)
    ensures
        opaque_end(
            before + seq!['"'] + escaped(t) + seq!['"'] + after,
            before.len() as int,
        ) == Some((before.len() + escaped(t).len() + 2) as int),
{
    let s = before + seq!['"'] + escaped(t) + seq!['"'] + after;
    let i = before.len() as int;
    let open = seq!['/', '*'];
    let quotes = seq!['\'', '\''];
    assert(s[i] == '"');
    if i + 2 <= s.len() {
        assert(s.subrange(i, i + 2)[0] == s[i]);
        assert(open[0] == '/' && quotes[0] == '\'');
    }
    assert(!text::occurs_at(s, open, i));
    assert(!text::occurs_at(s, quotes, i));
    assert(s.subrange(i + 1, i + 1 + escaped(t).len()) =~= escaped(t));
    lemma_escaped(s, i + 1, t);
}

/// Nothing else is skipped: where none of the four begins, code stands.
pub proof fn law_code_is_read(s: Seq<char>, i: int)
    requires
        0 <= i < s.len(),
        s[i] != '#' && s[i] != '"',
        s[i] == '/' ==> i + 1 == s.len() || s[i + 1] != '*',
        s[i] == '\'' ==> i + 1 == s.len() || s[i + 1] != '\'',
    ensures
        opaque_end(s, i) is None,
{
    let open = seq!['/', '*'];
    let quotes = seq!['\'', '\''];
    if i + 2 <= s.len() {
        assert(s.subrange(i, i + 2)[0] == s[i] && s.subrange(i, i + 2)[1] == s[i + 1]);
        assert(open[0] == '/' && open[1] == '*' && quotes[0] == '\'' && quotes[1] == '\'');
    }
    assert(!text::occurs_at(s, open, i));
    assert(!text::occurs_at(s, quotes, i));
}

/// The characters of attribute paths: letters, digits, `_`, `-`, `'` and the dot that
/// parts them; of ASCII, no others, so that a path ends where Nix ends it.
pub proof fn law_attribute_characters(c: char)
    ensures
        'a' <= c <= 'z' || 'A' <= c <= 'Z' || '0' <= c <= '9' || c == '_' || c == '-' || c == '\''
            || c == '.' ==> is_attr(c),
        c as int == 0x20 || 0x09 <= c as int <= 0x0d || c == '=' || c == '{' || c == '}' || c == ';'
            || c == '"' || c == '#' || c == '/' || c == '$' || c == ':' || c == ',' || c == '('
            || c == ')' || c == '[' || c == ']' || c == '@' || c == '?' || c == '!' || c == '+'
            || c == '*' || c == '\\' ==> !is_attr(c),
        c as int >= 0x80 ==> is_attr(c) == alphanumeric(c),
{
}

/// Whether `c` can stand in the name of an input that needs no quotes.
pub open spec fn is_name_char(c: char) -> bool {
    'a' <= c <= 'z' || 'A' <= c <= 'Z' || '0' <= c <= '9' || c == '_' || c == '-' || c == '\''
}

/// Whether `name` can be the name of an input as it stands. Two apostrophes side by side
/// would open a string.
pub open spec fn is_name(name: Seq<char>) -> bool {
    &&& name.len() > 0
    &&& forall|i: int| 0 <= i < name.len() ==> is_name_char(#[trigger] name[i])
    &&& forall|i: int, j: int|
        0 <= i && j == i + 1 && j < name.len() ==> !(#[trigger] name[i] == '\''
            && #[trigger] name[j] == '\'')
}

/// Whether `url` can be written between quotes as it stands.
pub open spec fn is_url(url: Seq<char>) -> bool {
    !url.contains('"') && !url.contains('\\') && !text::has(url, seq!['$', '{'])
}

/// The declaration of one input behind `lead`.
pub open spec fn declaration(lead: Seq<char>, name: Seq<char>, url: Seq<char>) -> Seq<char> {
    seq![' '] + lead + name + seq!['.', 'u', 'r', 'l', ' ', '=', ' ', '"'] + url + seq!['"', ';']
}

/// Declarations of inputs, one behind the other.
pub open spec fn declarations(lead: Seq<char>, inputs: Seq<(Seq<char>, Seq<char>)>) -> Seq<char>
    decreases inputs.len(),
{
    if inputs.len() == 0 {
        Seq::empty()
    } else {
        declaration(lead, inputs[0].0, inputs[0].1) + declarations(lead, inputs.drop_first())
    }
}

/// Whether all of `inputs` can be declared as they stand.
pub open spec fn can_be_declared(inputs: Seq<(Seq<char>, Seq<char>)>) -> bool {
    forall|i: int|
        0 <= i < inputs.len() ==> is_name((#[trigger] inputs[i]).0) && is_url(inputs[i].1)
}

proof fn lemma_occurs(s: Seq<char>, x: Seq<char>, y: Seq<char>, p: int)
    requires
        text::occurs_at(s, x + y, p),
    ensures
        text::occurs_at(s, x, p),
        text::occurs_at(s, y, p + x.len()),
{
    let all = s.subrange(p, p + (x + y).len());
    assert(s.subrange(p, p + x.len()) =~= all.take(x.len() as int));
    assert(all.take(x.len() as int) =~= x);
    assert(s.subrange(p + x.len(), p + x.len() + y.len()) =~= all.skip(x.len() as int));
    assert(all.skip(x.len() as int) =~= y);
}

/// A character that opens nothing and begins no `url` is passed over.
proof fn lemma_pass(s: Seq<char>, p: int, blocks: Seq<Option<Seq<char>>>, name: Seq<char>)
    requires
        0 <= p < s.len(),
        opaque_end(s, p) is None,
        !is_url_word(s, p),
        s[p] != '{',
        s[p] != '}',
    ensures
        url_from(s, p, blocks, name) == url_from(s, p + 1, blocks, name),
{
}

proof fn lemma_not_opaque(s: Seq<char>, p: int)
    requires
        0 <= p < s.len(),
        s[p] != '#',
        s[p] != '/',
        s[p] != '"',
        s[p] == '\'' ==> p + 1 >= s.len() || s[p + 1] != '\'',
    ensures
        opaque_end(s, p) is None,
{
    if text::occurs_at(s, seq!['/', '*'], p) {
        assert(s.subrange(p, p + 2)[0] == s[p]);
    }
    if text::occurs_at(s, seq!['\'', '\''], p) {
        assert(s.subrange(p, p + 2)[0] == s[p]);
        assert(s.subrange(p, p + 2)[1] == s[p + 1]);
    }
}

/// A path is passed over up to its last component.
proof fn lemma_path_walk(
    s: Seq<char>,
    p: int,
    q: int,
    blocks: Seq<Option<Seq<char>>>,
    name: Seq<char>,
)
    requires
        0 <= p <= q,
        q + 3 <= s.len(),
        forall|j: int| p <= j < q ==> is_name_char(#[trigger] s[j]) || s[j] == '.',
        forall|j: int, k: int|
            p <= j && k == j + 1 && k <= q ==> !(#[trigger] s[j] == '\'' && #[trigger] s[k] == '\''),
        p < q ==> s[q - 1] == '.',
    ensures
        url_from(s, p, blocks, name) == url_from(s, q, blocks, name),
    decreases q - p,
{
    if p < q {
        let c = s[p];
        assert(is_name_char(c) || c == '.');
        assert(!(s[p] == '\'' && s[p + 1] == '\''));
        lemma_not_opaque(s, p);
        if is_url_word(s, p) {
            assert(s.subrange(p, p + 3)[0] == s[p]);
            assert(s.subrange(p, p + 3)[1] == s[p + 1]);
            assert(s.subrange(p, p + 3)[2] == s[p + 2]);
            assert(p + 3 <= q - 1);
            let d = s[p + 3];
            assert(is_name_char(d) || d == '.');
            assert(skip_blanks(s, p + 3) == p + 3);
            assert(assigned(s, p) is None);
            assert(!declares(s, p, blocks, name));
            lemma_path_walk(s, p + 3, q, blocks, name);
        } else {
            lemma_pass(s, p, blocks, name);
            lemma_path_walk(s, p + 1, q, blocks, name);
        }
    }
}

proof fn lemma_path_back(s: Seq<char>, p: int, q: int)
    requires
        0 < p <= q <= s.len(),
        !is_attr(s[p - 1]),
        forall|j: int| p <= j < q ==> is_attr(#[trigger] s[j]),
    ensures
        path_start(s, q) == p,
    decreases q - p,
{
    if p < q {
        assert(is_attr(s[q - 1]));
        lemma_path_back(s, p, q - 1);
    }
}

/// What a declaration that stands at `p` puts where.
spec fn laid_out(s: Seq<char>, p: int, lead: Seq<char>, n: Seq<char>, u: Seq<char>) -> bool {
    let q = p + lead.len() + n.len() + 2;
    let end = q + 7 + u.len();
    &&& 0 <= p && end + 1 < s.len()
    &&& s[p] == ' '
    &&& s.subrange(p + 1, q + 3) == lead + n + seq!['.', 'u', 'r', 'l']
    &&& s[q - 1] == '.' && s[q] == 'u' && s[q + 1] == 'r' && s[q + 2] == 'l'
    &&& s[q + 3] == ' ' && s[q + 4] == '=' && s[q + 5] == ' ' && s[q + 6] == '"'
    &&& s.subrange(q + 7, end) == u
    &&& s[end] == '"' && s[end + 1] == ';'
}

proof fn lemma_laid_out(s: Seq<char>, p: int, lead: Seq<char>, n: Seq<char>, u: Seq<char>)
    requires
        text::occurs_at(s, declaration(lead, n, u), p),
    ensures
        laid_out(s, p, lead, n, u),
{
    let word = seq!['.', 'u', 'r', 'l', ' ', '=', ' ', '"'];
    let a = seq![' '];
    let b = lead + n;
    let c = seq!['"', ';'];
    let e = declaration(lead, n, u);
    assert(e =~= a + (b + (word + (u + c))));
    lemma_occurs(s, a, b + (word + (u + c)), p);
    lemma_occurs(s, b, word + (u + c), p + 1);
    lemma_occurs(s, word, u + c, p + 1 + b.len());
    lemma_occurs(s, u, c, p + 1 + b.len() + 8);
    let q = p + b.len() + 2;
    let end = q + 7 + u.len();
    assert(s.subrange(p, p + 1)[0] == s[p]);
    let w = s.subrange(q - 1, q + 7);
    assert(w[0] == s[q - 1] && w[1] == s[q] && w[2] == s[q + 1] && w[3] == s[q + 2]);
    assert(w[4] == s[q + 3] && w[5] == s[q + 4] && w[6] == s[q + 5] && w[7] == s[q + 6]);
    let x = s.subrange(end, end + 2);
    assert(x[0] == s[end] && x[1] == s[end + 1]);
    assert(s.subrange(p + 1, q + 3) =~= s.subrange(p + 1, q - 1) + seq!['.', 'u', 'r', 'l']);
}

/// Up to the word `url`, a declaration is passed over.
proof fn lemma_to_the_word(
    s: Seq<char>,
    p: int,
    lead: Seq<char>,
    blocks: Seq<Option<Seq<char>>>,
    n: Seq<char>,
    u: Seq<char>,
    name: Seq<char>,
)
    requires
        laid_out(s, p, lead, n, u),
        lead.len() > 0 ==> lead == seq!['i', 'n', 'p', 'u', 't', 's', '.'],
        is_name(n),
    ensures
        url_from(s, p, blocks, name) == url_from(s, p + lead.len() + n.len() + 2, blocks, name),
        path_start(s, p + lead.len() + n.len() + 2) == p + 1,
{
    let q = p + lead.len() + n.len() + 2;
    let path = lead + n + seq!['.', 'u', 'r', 'l'];
    lemma_not_opaque(s, p);
    if is_url_word(s, p) {
        assert(s.subrange(p, p + 3)[0] == s[p]);
    }
    lemma_pass(s, p, blocks, name);
    assert forall|j: int| p + 1 <= j < q + 3 implies #[trigger] s[j] == path[j - p - 1] by {
        assert(s.subrange(p + 1, q + 3)[j - p - 1] == s[j]);
    }
    assert forall|j: int| p + 1 <= j < q implies is_name_char(#[trigger] s[j]) || s[j] == '.' by {
        if j - p - 1 < lead.len() {
            assert(path[j - p - 1] == lead[j - p - 1]);
        } else if j < q - 1 {
            assert(path[j - p - 1] == n[j - p - 1 - lead.len()]);
        }
    }
    assert forall|j: int, k: int|
        p + 1 <= j && k == j + 1 && k <= q implies !(#[trigger] s[j] == '\''
        && #[trigger] s[k] == '\'') by {
        if j - p - 1 < lead.len() {
            assert(path[j - p - 1] == lead[j - p - 1]);
        } else if k < q - 1 {
            assert(path[j - p - 1] == n[j - p - 1 - lead.len()]);
            assert(path[k - p - 1] == n[k - p - 1 - lead.len()]);
        }
    }
    lemma_path_walk(s, p + 1, q, blocks, name);
    assert forall|j: int| p + 1 <= j < q implies is_attr(#[trigger] s[j]) by {
        law_attribute_characters(s[j]);
        assert(is_name_char(s[j]) || s[j] == '.');
    }
    law_attribute_characters(s[p]);
    lemma_path_back(s, p + 1, q);
}

/// What is assigned by a declaration.
proof fn lemma_assigns(s: Seq<char>, p: int, lead: Seq<char>, n: Seq<char>, u: Seq<char>)
    requires
        laid_out(s, p, lead, n, u),
        is_url(u),
    ensures
        ({
            let q = p + lead.len() + n.len() + 2;
            &&& is_url_word(s, q)
            &&& opaque_end(s, q) is None
            &&& assigned(s, q) == Some(q + 6)
            &&& idle(s, q + 3, q + 6)
            &&& opaque_end(s, q + 6) == Some(q + 8 + u.len())
            &&& literal(s, q + 6) == Some((q + 7, q + 7 + u.len()))
        }),
{
    let q = p + lead.len() + n.len() + 2;
    let end = q + 7 + u.len();
    assert(s.subrange(q, q + 3) =~= seq!['u', 'r', 'l']);
    lemma_not_opaque(s, q);
    assert(skip_blanks(s, q + 4) == q + 4);
    assert(skip_blanks(s, q + 3) == q + 4);
    assert(skip_blanks(s, q + 6) == q + 6);
    assert(skip_blanks(s, q + 5) == q + 6);
    assert forall|j: int| q + 7 <= j < end implies s[j] != '"' && s[j] != '\\' by {
        assert(s.subrange(q + 7, end)[j - q - 7] == s[j]);
        assert(u.contains(u[j - q - 7]));
    }
    lemma_string_end_plain(s, q + 7, end);
    if text::occurs_at(s, seq!['/', '*'], q + 6) || text::occurs_at(
        s,
        seq!['\'', '\''],
        q + 6,
    ) {
        assert(s.subrange(q + 6, q + 8)[0] == s[q + 6]);
    }
    assert(is_plain(u));
}

/// One declaration: it is found if it is the one, and passed over if not.
proof fn lemma_declaration(
    s: Seq<char>,
    p: int,
    lead: Seq<char>,
    blocks: Seq<Option<Seq<char>>>,
    n: Seq<char>,
    u: Seq<char>,
    name: Seq<char>,
    above: Seq<char>,
)
    requires
        text::occurs_at(s, declaration(lead, n, u), p),
        home(blocks) == Some(above),
        above + lead == seq!['i', 'n', 'p', 'u', 't', 's', '.'],
        lead.len() > 0 ==> lead == seq!['i', 'n', 'p', 'u', 't', 's', '.'],
        is_name(n),
        is_url(u),
    ensures
        n == name ==> (url_from(s, p, blocks, name) matches Some((x, y)) && s.subrange(x, y) == u),
        n != name ==> url_from(s, p, blocks, name) == url_from(
            s,
            p + declaration(lead, n, u).len(),
            blocks,
            name,
        ),
{
    let q = p + lead.len() + n.len() + 2;
    let end = q + 7 + u.len();
    lemma_laid_out(s, p, lead, n, u);
    lemma_to_the_word(s, p, lead, blocks, n, u, name);
    lemma_assigns(s, p, lead, n, u);
    assert(above + (lead + n + seq!['.', 'u', 'r', 'l']) =~= (above + lead) + n
        + seq!['.', 'u', 'r', 'l']);
    assert(full_name(s, q, blocks) == Some(url_name(n)));
    lemma_url_name(n, name);
    if n == name {
        assert forall|i: int| 0 <= i < n.len() implies n[i] != '.' by {
            assert(is_name_char(n[i]));
        }
        assert(!name.contains('.'));
        assert(declares(s, q, blocks, name));
    } else {
        assert(!declares(s, q, blocks, name));
        lemma_idle(s, q + 3, q + 6, blocks, name, q + 6);
        assert(url_from(s, q, blocks, name) == url_from(s, q + 3, blocks, name));
        assert(url_from(s, q + 6, blocks, name) == url_from(s, end + 1, blocks, name));
        lemma_not_opaque(s, end + 1);
        if is_url_word(s, end + 1) {
            assert(s.subrange(end + 1, end + 4)[0] == s[end + 1]);
        }
        lemma_pass(s, end + 1, blocks, name);
    }
}

/// Declarations behind each other: the first of the name is found.
proof fn lemma_declarations(
    s: Seq<char>,
    p: int,
    lead: Seq<char>,
    blocks: Seq<Option<Seq<char>>>,
    inputs: Seq<(Seq<char>, Seq<char>)>,
    k: int,
    above: Seq<char>,
)
    requires
        text::occurs_at(s, declarations(lead, inputs), p),
        home(blocks) == Some(above),
        above + lead == seq!['i', 'n', 'p', 'u', 't', 's', '.'],
        lead.len() > 0 ==> lead == seq!['i', 'n', 'p', 'u', 't', 's', '.'],
        can_be_declared(inputs),
        0 <= k < inputs.len(),
        forall|i: int| 0 <= i < k ==> (#[trigger] inputs[i]).0 != inputs[k].0,
    ensures
        url_from(s, p, blocks, inputs[k].0) matches Some((x, y)) && s.subrange(x, y)
            == inputs[k].1,
    decreases inputs.len(),
{
    let (n, u) = inputs[0];
    let rest = inputs.drop_first();
    lemma_occurs(s, declaration(lead, n, u), declarations(lead, rest), p);
    assert(is_name(inputs[0].0) && is_url(inputs[0].1));
    lemma_declaration(s, p, lead, blocks, n, u, inputs[k].0, above);
    if k > 0 {
        assert(inputs[0].0 != inputs[k].0);
        assert forall|i: int| 0 <= i < rest.len() implies is_name((#[trigger] rest[i]).0) && is_url(
            rest[i].1,
        ) by {
            assert(rest[i] == inputs[i + 1]);
        }
        assert forall|i: int| 0 <= i < k - 1 implies (#[trigger] rest[i]).0 != rest[k - 1].0 by {
            assert(rest[i] == inputs[i + 1]);
            assert(rest[k - 1] == inputs[k]);
        }
        assert(rest[k - 1] == inputs[k]);
        lemma_declarations(
            s,
            p + declaration(lead, n, u).len(),
            lead,
            blocks,
            rest,
            k - 1,
            above,
        );
    }
}

/// Every input that is declared by a dotted path is found, with the url it has there,
/// whatever it is called and whatever is declared beside it.
pub proof fn law_every_input_declared_by_a_path_is_found(
    inputs: Seq<(Seq<char>, Seq<char>)>,
    end: Seq<char>,
    k: int,
)
    requires
        can_be_declared(inputs),
        0 <= k < inputs.len(),
        forall|i: int| 0 <= i < k ==> (#[trigger] inputs[i]).0 != inputs[k].0,
    ensures
        ({
            let lead = seq!['i', 'n', 'p', 'u', 't', 's', '.'];
            let s = seq!['{'] + declarations(lead, inputs) + end;
            url_in(s, inputs[k].0) matches Some((x, y)) && s.subrange(x, y) == inputs[k].1
        }),
{
    let lead = seq!['i', 'n', 'p', 'u', 't', 's', '.'];
    let body = declarations(lead, inputs);
    let s = seq!['{'] + body + end;
    let name = inputs[k].0;
    let none: Seq<Option<Seq<char>>> = Seq::empty();
    let blocks = none.push(None);
    lemma_not_opaque(s, 0);
    if is_url_word(s, 0) {
        assert(s.subrange(0, 3)[0] == s[0]);
    }
    assert(s.take(0) =~= Seq::<char>::empty());
    assert(bound_name(s, 0) is None);
    assert(url_in(s, name) == url_from(s, 1, blocks, name));
    assert(home(blocks) == Some(Seq::<char>::empty()));
    assert(s.subrange(1, 1int + body.len()) =~= body);
    assert(Seq::<char>::empty() + lead =~= lead);
    lemma_declarations(s, 1, lead, blocks, inputs, k, Seq::empty());
}

/// The name of the block that `inputs = {` opens.
proof fn lemma_inputs_block(s: Seq<char>, name: Seq<char>)
    requires
        text::occurs_at(
            s,
            seq!['{', ' ', 'i', 'n', 'p', 'u', 't', 's', ' ', '=', ' ', '{'],
            0,
        ),
    ensures
        ({
            let word = seq!['i', 'n', 'p', 'u', 't', 's'];
            let none: Seq<Option<Seq<char>>> = Seq::empty();
            &&& url_in(s, name) == url_from(s, 12, none.push(None).push(Some(word)), name)
            &&& home(none.push(None).push(Some(word))) == Some(word.push('.'))
        }),
{
    let head = seq!['{', ' ', 'i', 'n', 'p', 'u', 't', 's', ' ', '=', ' ', '{'];
    let word = seq!['i', 'n', 'p', 'u', 't', 's'];
    let none: Seq<Option<Seq<char>>> = Seq::empty();
    let one = none.push(None);
    let two = one.push(Some(word));
    assert forall|i: int| 0 <= i < 12 implies s[i] == #[trigger] head[i] by {
        assert(s.subrange(0, 12)[i] == s[i]);
    }
    assert(s[0] == head[0] && s[1] == head[1] && s[2] == head[2] && s[3] == head[3]);
    assert(s[4] == head[4] && s[5] == head[5] && s[6] == head[6] && s[7] == head[7]);
    assert(s[8] == head[8] && s[9] == head[9] && s[10] == head[10] && s[11] == head[11]);
    assert forall|i: int| 0 <= i < 12 implies opaque_end(s, i) is None && !is_url_word(s, i) by {
        lemma_not_opaque(s, i);
        if is_url_word(s, i) {
            assert(s.subrange(i, i + 3)[0] == s[i]);
            assert(s.subrange(i, i + 3)[1] == s[i + 1]);
        }
    }
    assert(s.take(0) =~= Seq::<char>::empty());
    assert(bound_name(s, 0) is None);
    assert(url_in(s, name) == url_from(s, 1, one, name));
    lemma_pass(s, 1, one, name);
    lemma_pass(s, 2, one, name);
    lemma_pass(s, 3, one, name);
    lemma_pass(s, 4, one, name);
    lemma_pass(s, 5, one, name);
    lemma_pass(s, 6, one, name);
    lemma_pass(s, 7, one, name);
    lemma_pass(s, 8, one, name);
    lemma_pass(s, 9, one, name);
    lemma_pass(s, 10, one, name);
    assert(s.take(11).drop_last() =~= s.take(10));
    assert(text::trim_end(s.take(10)) == s.take(10));
    assert(text::trim_end(s.take(11)) == s.take(10));
    assert(s.take(10).drop_last() =~= s.take(9));
    assert(s.take(9).drop_last() =~= s.take(8));
    assert(text::trim_end(s.take(8)) == s.take(8));
    assert(text::trim_end(s.take(9)) == s.take(8));
    let lhs = s.take(8);
    law_attribute_characters(' ');
    assert forall|j: int| 2 <= j < 8 implies is_attr(#[trigger] lhs[j]) by {
        assert(lhs[j] == s[j]);
        law_attribute_characters(s[j]);
    }
    assert(lhs[1] == ' ');
    lemma_path_back(lhs, 2, 8);
    assert(lhs.skip(2) =~= word);
    assert(bound_name(s, 11) == Some(word));
    assert(url_from(s, 11, one, name) == url_from(s, 12, two, name));
    assert(two.drop_last() =~= one);
    assert(home(one) == Some(Seq::<char>::empty()));
    assert(!word.contains('.'));
    assert(Seq::<char>::empty() + word + seq!['.'] =~= word.push('.'));
}

/// So is every input that is declared within an `inputs` block.
pub proof fn law_every_input_declared_in_the_block_is_found(
    inputs: Seq<(Seq<char>, Seq<char>)>,
    end: Seq<char>,
    k: int,
)
    requires
        can_be_declared(inputs),
        0 <= k < inputs.len(),
        forall|i: int| 0 <= i < k ==> (#[trigger] inputs[i]).0 != inputs[k].0,
    ensures
        ({
            let s = seq!['{', ' ', 'i', 'n', 'p', 'u', 't', 's', ' ', '=', ' ', '{'] + declarations(
                Seq::empty(),
                inputs,
            ) + end;
            url_in(s, inputs[k].0) matches Some((x, y)) && s.subrange(x, y) == inputs[k].1
        }),
{
    let head = seq!['{', ' ', 'i', 'n', 'p', 'u', 't', 's', ' ', '=', ' ', '{'];
    let body = declarations(Seq::empty(), inputs);
    let s = head + body + end;
    let word = seq!['i', 'n', 'p', 'u', 't', 's'];
    let none: Seq<Option<Seq<char>>> = Seq::empty();
    let blocks = none.push(None).push(Some(word));
    assert(s.subrange(0, 12) =~= head);
    lemma_inputs_block(s, inputs[k].0);
    assert(s.subrange(12, 12int + body.len()) =~= body);
    assert(word.push('.') + Seq::<char>::empty() =~= seq!['i', 'n', 'p', 'u', 't', 's', '.']);
    lemma_declarations(s, 12, Seq::empty(), blocks, inputs, k, word.push('.'));
}

// ---------------------------------------------------------------------------
// Replacing it
// ---------------------------------------------------------------------------

/// `s` with the positions from `a` up to `b` replaced by `new`.
pub open spec fn replaced(s: Seq<char>, a: int, b: int, new: Seq<char>) -> Seq<char> {
    s.take(a) + new + s.skip(b)
}

proof fn lemma_skip_blanks(s: Seq<char>, i: int)
    ensures
        i <= skip_blanks(s, i),
    decreases s.len() - i,
{
    if 0 <= i < s.len() && (s[i] == ' ' || 0x09 <= s[i] as u32 <= 0x0d) {
        lemma_skip_blanks(s, i + 1);
    }
}

spec fn agree(s: Seq<char>, t: Seq<char>, n: int) -> bool {
    &&& 0 <= n <= s.len()
    &&& n <= t.len()
    &&& forall|j: int| 0 <= j < n ==> s[j] == t[j]
}

proof fn lemma_agree_occurs(s: Seq<char>, t: Seq<char>, n: int, pat: Seq<char>, i: int)
    requires
        agree(s, t, n),
        i + pat.len() <= n,
    ensures
        text::occurs_at(s, pat, i) == text::occurs_at(t, pat, i),
{
    if 0 <= i {
        assert(s.subrange(i, i + pat.len()) == t.subrange(i, i + pat.len()));
    }
}

proof fn lemma_agree_find(s: Seq<char>, t: Seq<char>, n: int, pat: Seq<char>, from: int)
    requires
        agree(s, t, n),
        0 <= from,
        text::find_from(s, pat, from) matches Some(k) && k + pat.len() <= n,
    ensures
        text::find_from(t, pat, from) == text::find_from(s, pat, from),
    decreases s.len() + 1 - from,
{
    text::lemma_find_from(s, pat, from);
    lemma_agree_occurs(s, t, n, pat, from);
    if !text::occurs_at(s, pat, from) {
        lemma_agree_find(s, t, n, pat, from + 1);
    }
}

proof fn lemma_agree_string(s: Seq<char>, t: Seq<char>, n: int, i: int)
    requires
        agree(s, t, n),
        0 <= i,
        string_end(s, i) matches Some(k) && k <= n,
    ensures
        string_end(t, i) == string_end(s, i),
    decreases s.len() + 1 - i,
{
    lemma_string_end(s, i);
    if s[i] == '\\' {
        lemma_agree_string(s, t, n, i + 2);
    } else if s[i] != '"' {
        lemma_agree_string(s, t, n, i + 1);
    }
}

proof fn lemma_agree_blanks(s: Seq<char>, t: Seq<char>, n: int, i: int)
    requires
        agree(s, t, n),
        0 <= i,
        skip_blanks(s, i) < n,
    ensures
        skip_blanks(t, i) == skip_blanks(s, i),
    decreases s.len() - i,
{
    lemma_skip_blanks(s, i);
    if s[i] == ' ' || 0x09 <= s[i] as u32 <= 0x0d {
        lemma_agree_blanks(s, t, n, i + 1);
    }
}

proof fn lemma_blanks_stop(s: Seq<char>, i: int, stop: int)
    requires
        0 <= i <= stop < s.len(),
        s[stop] == 'u',
    ensures
        skip_blanks(s, i) <= stop,
    decreases stop - i,
{
    if i < stop && (s[i] == ' ' || 0x09 <= s[i] as u32 <= 0x0d) {
        lemma_blanks_stop(s, i + 1, stop);
    }
}

proof fn lemma_agree_path(s: Seq<char>, t: Seq<char>, n: int, end: int)
    requires
        agree(s, t, n),
        0 <= end <= n,
    ensures
        path_start(s, end) == path_start(t, end),
        0 <= path_start(s, end) <= end,
    decreases end,
{
    if end > 0 {
        lemma_agree_path(s, t, n, end - 1);
    }
}

proof fn lemma_agree_belongs(
    s: Seq<char>,
    t: Seq<char>,
    n: int,
    i: int,
    blocks: Seq<Option<Seq<char>>>,
    name: Seq<char>,
)
    requires
        agree(s, t, n),
        0 <= i,
        i + 3 <= n,
    ensures
        belongs(s, i, blocks, name) == belongs(t, i, blocks, name),
{
    lemma_agree_path(s, t, n, i);
    let a = path_start(s, i);
    assert(s.subrange(a, i + 3) == t.subrange(a, i + 3));
}

/// A declaration is read as before, up to the quote that opens its literal.
proof fn lemma_agree_declares(
    s: Seq<char>,
    t: Seq<char>,
    n: int,
    i: int,
    blocks: Seq<Option<Seq<char>>>,
    name: Seq<char>,
)
    requires
        agree(s, t, n),
        0 <= i < s.len(),
        declares(s, i, blocks, name),
        assigned(s, i)->0 < n,
    ensures
        declares(t, i, blocks, name),
        assigned(t, i) == assigned(s, i),
{
    let eq = skip_blanks(s, i + 3);
    lemma_skip_blanks(s, i + 3);
    lemma_skip_blanks(s, eq + 1);
    lemma_agree_occurs(s, t, n, seq!['/', '*'], i);
    lemma_agree_occurs(s, t, n, seq!['\'', '\''], i);
    lemma_agree_occurs(s, t, n, seq!['u', 'r', 'l'], i);
    lemma_agree_blanks(s, t, n, i + 3);
    lemma_agree_blanks(s, t, n, eq + 1);
    lemma_agree_belongs(s, t, n, i, blocks, name);
}

/// Before the declaration at `i`, a text that agrees with `s` up to `n` is scanned
/// as `s` is.
proof fn lemma_agree_step(s: Seq<char>, t: Seq<char>, n: int, from: int, i: int)
    requires
        agree(s, t, n),
        0 <= from < i,
        i + 3 <= n,
        s[i] == 'u',
        next(s, from) <= i,
    ensures
        opaque_end(t, from) == opaque_end(s, from),
        is_url_word(t, from) == is_url_word(s, from),
        next(t, from) == next(s, from),
        is_url_word(s, from) && opaque_end(s, from) is None ==> assigned(t, from) == assigned(
            s,
            from,
        ),
        forall|blocks: Seq<Option<Seq<char>>>|
            #[trigger] blocks_after(t, from, blocks) == blocks_after(s, from, blocks),
{
    lemma_agree_occurs(s, t, n, seq!['/', '*'], from);
    lemma_agree_occurs(s, t, n, seq!['\'', '\''], from);
    lemma_agree_occurs(s, t, n, seq!['u', 'r', 'l'], from);
    if s[from] == '#' {
        lemma_agree_find(s, t, n, seq!['\n'], from);
    } else if text::occurs_at(s, seq!['/', '*'], from) {
        lemma_agree_find(s, t, n, seq!['*', '/'], from + 2);
    } else if text::occurs_at(s, seq!['\'', '\''], from) {
        lemma_agree_find(s, t, n, seq!['\'', '\''], from + 2);
    } else if s[from] == '"' {
        lemma_agree_string(s, t, n, from + 1);
    } else if is_url_word(s, from) {
        lemma_blanks_stop(s, from + 3, i);
        lemma_skip_blanks(s, from + 3);
        let eq = skip_blanks(s, from + 3);
        lemma_agree_blanks(s, t, n, from + 3);
        if s[eq] == '=' {
            lemma_blanks_stop(s, eq + 1, i);
            lemma_agree_blanks(s, t, n, eq + 1);
            lemma_skip_blanks(s, eq + 1);
        }
    }
    assert(s.take(from) == t.take(from));
}

proof fn lemma_agree_search(
    s: Seq<char>,
    t: Seq<char>,
    n: int,
    from: int,
    blocks: Seq<Option<Seq<char>>>,
    name: Seq<char>,
    i: int,
)
    requires
        agree(s, t, n),
        0 <= from <= i,
        i + 3 <= n,
        s[i] == 'u',
        blocks_at(s, from, blocks, i) is Some,
        forall|j: int|
            from <= j < i ==> !(#[trigger] blocks_at(s, from, blocks, j) matches Some(bj)
                && declares(s, j, bj, name)),
    ensures
        url_from(t, from, blocks, name) == url_from(t, i, blocks_at(s, from, blocks, i)->0, name),
    decreases i - from,
{
    if from < i {
        let after = blocks_after(s, from, blocks);
        assert(blocks_at(s, from, blocks, from) == Some(blocks));
        lemma_next(s, from);
        if next(s, from) > i {
            lemma_not_before(s, next(s, from), after, i);
        }
        lemma_agree_step(s, t, n, from, i);
        lemma_agree_belongs(s, t, n, from, blocks, name);
        assert forall|j: int| next(s, from) <= j < i implies !(#[trigger] blocks_at(
            s,
            next(s, from),
            after,
            j,
        ) matches Some(bj) && declares(s, j, bj, name)) by {
            assert(blocks_at(s, from, blocks, j) == blocks_at(s, next(s, from), after, j));
        }
        lemma_agree_search(s, t, n, next(s, from), after, name, i);
        assert(blocks_after(t, from, blocks) == after);
    }
}

proof fn lemma_string_end_plain(t: Seq<char>, i: int, end: int)
    requires
        0 <= i <= end < t.len(),
        t[end] == '"',
        forall|j: int| i <= j < end ==> t[j] != '"' && t[j] != '\\',
    ensures
        string_end(t, i) == Some(end + 1),
    decreases end - i,
{
    if i < end {
        lemma_string_end_plain(t, i + 1, end);
    }
}

/// Reading back what was written: once the located literal has been replaced by a
/// url without quotes, escapes or interpolations, the input's url is the new one.
pub proof fn law_replaced_url_is_found_again(
    s: Seq<char>,
    name: Seq<char>,
    a: int,
    b: int,
    new: Seq<char>,
)
    requires
        url_in(s, name) == Some((a, b)),
        is_plain(new),
        !new.contains('"'),
    ensures
        url_in(replaced(s, a, b, new), name) == Some((a, a + new.len())),
{
    let t = replaced(s, a, b, new);
    let i = lemma_url_from(s, 0, Seq::empty(), name, a, b);
    let blocks = blocks_at(s, 0, Seq::empty(), i)->0;
    lemma_string_end(s, a);
    lemma_skip_blanks(s, i + 3);
    lemma_skip_blanks(s, skip_blanks(s, i + 3) + 1);
    assert(s.subrange(i, i + 3)[0] == s[i]);
    assert(agree(s, t, a));
    lemma_agree_search(s, t, a, 0, Seq::empty(), name, i);
    lemma_agree_declares(s, t, a, i, blocks, name);
    // What follows is the new literal.
    assert forall|j: int| a <= j < a + new.len() implies t[j] != '"' && t[j] != '\\' by {
        assert(t[j] == new[j - a]);
        assert(new.contains(new[j - a]));
    }
    assert(t[a + new.len()] == s[b]);
    lemma_string_end_plain(t, a, a + new.len());
    assert(t.subrange(a, a + new.len()) == new);
}

/// Whether `t` reads from `b + d` on as `s` does from `b`, where a quote stands.
spec fn shifted(s: Seq<char>, t: Seq<char>, b: int, d: int) -> bool {
    &&& 0 <= b < s.len()
    &&& 0 <= b + d
    &&& t.len() == s.len() + d
    &&& s[b] == '"'
    &&& forall|j: int| #![trigger s[j]] #![trigger t[j + d]] b <= j < s.len() ==> t[j + d] == s[j]
}

/// A position, `d` further on.
spec fn further(k: Option<int>, d: int) -> Option<int> {
    match k {
        Some(k) => Some(k + d),
        None => None,
    }
}

proof fn lemma_shifted_occurs(s: Seq<char>, t: Seq<char>, b: int, d: int, pat: Seq<char>, j: int)
    requires
        shifted(s, t, b, d),
        b <= j,
    ensures
        text::occurs_at(t, pat, j + d) == text::occurs_at(s, pat, j),
{
    if j + pat.len() <= s.len() {
        let x = s.subrange(j, j + pat.len());
        let y = t.subrange(j + d, j + d + pat.len());
        assert forall|k: int| 0 <= k < pat.len() implies x[k] == y[k] by {
            assert(x[k] == s[j + k]);
            assert(y[k] == t[(j + k) + d]);
        }
        assert(x == y);
    }
}

proof fn lemma_shifted_find(s: Seq<char>, t: Seq<char>, b: int, d: int, pat: Seq<char>, j: int)
    requires
        shifted(s, t, b, d),
        b <= j,
    ensures
        text::find_from(t, pat, j + d) == further(text::find_from(s, pat, j), d),
    decreases s.len() + 1 - j,
{
    lemma_shifted_occurs(s, t, b, d, pat, j);
    if j + pat.len() <= s.len() && !text::occurs_at(s, pat, j) {
        lemma_shifted_find(s, t, b, d, pat, j + 1);
        assert(j + d + 1 == j + 1 + d);
    }
}

proof fn lemma_shifted_string(s: Seq<char>, t: Seq<char>, b: int, d: int, j: int)
    requires
        shifted(s, t, b, d),
        b <= j,
    ensures
        string_end(t, j + d) == further(string_end(s, j), d),
    decreases s.len() + 1 - j,
{
    if j < s.len() && s[j] != '"' {
        if s[j] == '\\' {
            lemma_shifted_string(s, t, b, d, j + 2);
            assert(j + d + 2 == j + 2 + d);
        } else {
            lemma_shifted_string(s, t, b, d, j + 1);
            assert(j + d + 1 == j + 1 + d);
        }
    }
}

proof fn lemma_shifted_blanks(s: Seq<char>, t: Seq<char>, b: int, d: int, j: int)
    requires
        shifted(s, t, b, d),
        b <= j,
    ensures
        skip_blanks(t, j + d) == skip_blanks(s, j) + d,
    decreases s.len() - j,
{
    if j < s.len() && (s[j] == ' ' || 0x09 <= s[j] as u32 <= 0x0d) {
        lemma_shifted_blanks(s, t, b, d, j + 1);
        assert(j + d + 1 == j + 1 + d);
    }
}

proof fn lemma_shifted_path(s: Seq<char>, t: Seq<char>, b: int, d: int, j: int)
    requires
        shifted(s, t, b, d),
        b < j <= s.len(),
    ensures
        path_start(t, j + d) == path_start(s, j) + d,
        b < path_start(s, j) <= j,
    decreases j,
{
    assert(t[(j - 1) + d] == s[j - 1]);
    if is_attr(s[j - 1]) {
        lemma_shifted_path(s, t, b, d, j - 1);
        assert(j + d - 1 == j - 1 + d);
    }
}

proof fn lemma_shifted_trim(s: Seq<char>, t: Seq<char>, b: int, d: int, end: int) -> (r: int)
    requires
        shifted(s, t, b, d),
        b < end <= s.len(),
    ensures
        b < r <= end,
        text::trim_end(s.take(end)) == s.take(r),
        text::trim_end(t.take(end + d)) == t.take(r + d),
    decreases end,
{
    let x = s.take(end);
    let y = t.take(end + d);
    assert(x.last() == s[end - 1]);
    assert(y.last() == t[(end - 1) + d]);
    if text::is_space(s[end - 1]) {
        let r = lemma_shifted_trim(s, t, b, d, end - 1);
        assert(x.drop_last() == s.take(end - 1));
        assert(y.drop_last() == t.take(end - 1 + d));
        r
    } else {
        end
    }
}

proof fn lemma_shifted_bound(s: Seq<char>, t: Seq<char>, b: int, d: int, j: int)
    requires
        shifted(s, t, b, d),
        b < j < s.len(),
    ensures
        bound_name(t, j + d) == bound_name(s, j),
{
    let r = lemma_shifted_trim(s, t, b, d, j);
    assert(s.take(r).last() == s[r - 1]);
    assert(t.take(r + d).last() == t[(r - 1) + d]);
    if s[r - 1] == '=' {
        let q = lemma_shifted_trim(s, t, b, d, r - 1);
        assert(s.take(r).drop_last() == s.take(r - 1));
        assert(t.take(r + d).drop_last() == t.take(r - 1 + d));
        lemma_path_start_take(s, q, q);
        lemma_path_start_take(t, q + d, q + d);
        lemma_shifted_path(s, t, b, d, q);
        let start = path_start(s, q);
        let x = s.take(q).skip(start);
        let y = t.take(q + d).skip(start + d);
        assert forall|k: int| 0 <= k < q - start implies x[k] == y[k] by {
            assert(x[k] == s[start + k]);
            assert(y[k] == t[(start + k) + d]);
        }
        assert(x == y);
    }
}

/// Behind the quote, `t` is scanned as `s` is.
proof fn lemma_shifted_step(s: Seq<char>, t: Seq<char>, b: int, d: int, j: int)
    requires
        shifted(s, t, b, d),
        b < j < s.len(),
    ensures
        opaque_end(t, j + d) == further(opaque_end(s, j), d),
        is_url_word(t, j + d) == is_url_word(s, j),
        next(t, j + d) == next(s, j) + d,
        assigned(t, j + d) == further(assigned(s, j), d),
        forall|blocks: Seq<Option<Seq<char>>>|
            #[trigger] blocks_after(t, j + d, blocks) == blocks_after(s, j, blocks),
{
    assert(t[j + d] == s[j]);
    assert(t[(j - 1) + d] == s[j - 1]);
    lemma_shifted_find(s, t, b, d, seq!['\n'], j);
    lemma_shifted_occurs(s, t, b, d, seq!['/', '*'], j);
    lemma_shifted_occurs(s, t, b, d, seq!['\'', '\''], j);
    lemma_shifted_occurs(s, t, b, d, seq!['u', 'r', 'l'], j);
    lemma_shifted_find(s, t, b, d, seq!['*', '/'], j + 2);
    lemma_shifted_find(s, t, b, d, seq!['\'', '\''], j + 2);
    lemma_shifted_string(s, t, b, d, j + 1);
    assert(j + 2 + d == j + d + 2);
    assert(j + 1 + d == j + d + 1);
    assert(j + 3 + d == j + d + 3);
    lemma_shifted_blanks(s, t, b, d, j + 3);
    let eq = skip_blanks(s, j + 3);
    lemma_skip_blanks(s, j + 3);
    lemma_shifted_blanks(s, t, b, d, eq + 1);
    lemma_skip_blanks(s, eq + 1);
    let value = skip_blanks(s, eq + 1);
    assert(eq + 1 + d == eq + d + 1);
    if eq < s.len() {
        assert(t[eq + d] == s[eq]);
    }
    if value < s.len() {
        assert(t[value + d] == s[value]);
    }
    lemma_shifted_bound(s, t, b, d, j);
}

/// A range of positions, `d` further on.
pub open spec fn moved(r: Option<(int, int)>, d: int) -> Option<(int, int)> {
    match r {
        Some((a, b)) => Some((a + d, b + d)),
        None => None,
    }
}

proof fn lemma_shifted_literal(s: Seq<char>, t: Seq<char>, b: int, d: int, quote: int)
    requires
        shifted(s, t, b, d),
        b <= quote < s.len(),
    ensures
        literal(t, quote + d) == moved(literal(s, quote), d),
{
    lemma_shifted_string(s, t, b, d, quote + 1);
    assert(quote + 1 + d == quote + d + 1);
    lemma_string_end(s, quote + 1);
    if let Some(k) = string_end(s, quote + 1) {
        let x = s.subrange(quote + 1, k - 1);
        let y = t.subrange(quote + d + 1, k + d - 1);
        assert forall|n: int| 0 <= n < x.len() implies x[n] == y[n] by {
            assert(x[n] == s[quote + 1 + n]);
            assert(y[n] == t[(quote + 1 + n) + d]);
        }
        assert(x == y);
    }
}

proof fn lemma_shifted_url(
    s: Seq<char>,
    t: Seq<char>,
    b: int,
    d: int,
    j: int,
    blocks: Seq<Option<Seq<char>>>,
    name: Seq<char>,
)
    requires
        shifted(s, t, b, d),
        b < j,
    ensures
        url_from(t, j + d, blocks, name) == moved(url_from(s, j, blocks, name), d),
    decreases s.len() - j,
{
    if j < s.len() {
        lemma_shifted_step(s, t, b, d, j);
        lemma_shifted_path(s, t, b, d, j);
        let start = path_start(s, j);
        if is_url_word(s, j) {
            let x = s.subrange(start, j + 3);
            let y = t.subrange(start + d, j + d + 3);
            assert forall|n: int| 0 <= n < x.len() implies x[n] == y[n] by {
                assert(x[n] == s[start + n]);
                assert(y[n] == t[(start + n) + d]);
            }
            assert(x == y);
        }
        if declares(s, j, blocks, name) {
            lemma_skip_blanks(s, j + 3);
            lemma_skip_blanks(s, skip_blanks(s, j + 3) + 1);
            lemma_shifted_literal(s, t, b, d, assigned(s, j)->0);
        } else {
            lemma_next(s, j);
            lemma_shifted_url(s, t, b, d, next(s, j), blocks_after(s, j, blocks), name);
        }
    }
}

/// Whether nothing but blanks and equal signs stands from `p` up to `q`.
spec fn idle(s: Seq<char>, p: int, q: int) -> bool {
    &&& 0 <= p <= q <= s.len()
    &&& forall|j: int|
        p <= j < q ==> s[j] == '=' || s[j] == ' ' || 0x09 <= (#[trigger] s[j]) as u32 <= 0x0d
}

proof fn lemma_idle_step(s: Seq<char>, p: int, q: int, blocks: Seq<Option<Seq<char>>>)
    requires
        idle(s, p, q),
        p < q,
    ensures
        opaque_end(s, p) is None,
        !is_url_word(s, p),
        next(s, p) == p + 1,
        blocks_after(s, p, blocks) == blocks,
{
    assert(s[p] == '=' || s[p] == ' ' || 0x09 <= s[p] as u32 <= 0x0d);
    if text::occurs_at(s, seq!['/', '*'], p) {
        assert(s.subrange(p, p + 2)[0] == s[p]);
    }
    if text::occurs_at(s, seq!['\'', '\''], p) {
        assert(s.subrange(p, p + 2)[0] == s[p]);
    }
    if text::occurs_at(s, seq!['u', 'r', 'l'], p) {
        assert(s.subrange(p, p + 3)[0] == s[p]);
    }
}

/// Scanning passes over what is idle.
proof fn lemma_idle(
    s: Seq<char>,
    p: int,
    q: int,
    blocks: Seq<Option<Seq<char>>>,
    name: Seq<char>,
    i: int,
)
    requires
        idle(s, p, q),
    ensures
        url_from(s, p, blocks, name) == url_from(s, q, blocks, name),
        q <= i ==> blocks_at(s, p, blocks, i) == blocks_at(s, q, blocks, i),
    decreases q - p,
{
    if p < q {
        lemma_idle_step(s, p, q, blocks);
        lemma_idle(s, p + 1, q, blocks, name, i);
    }
}

proof fn lemma_blanks_idle(s: Seq<char>, p: int)
    requires
        0 <= p <= s.len(),
    ensures
        idle(s, p, skip_blanks(s, p)),
    decreases s.len() - p,
{
    if p < s.len() && (s[p] == ' ' || 0x09 <= s[p] as u32 <= 0x0d) {
        lemma_blanks_idle(s, p + 1);
    }
}

/// Between a `url` and the string assigned to it, nothing happens.
proof fn lemma_assigned_idle(s: Seq<char>, i: int)
    requires
        0 <= i < s.len(),
        is_url_word(s, i),
        assigned(s, i) is Some,
    ensures
        idle(s, i + 3, assigned(s, i)->0),
{
    let eq = skip_blanks(s, i + 3);
    lemma_blanks_idle(s, i + 3);
    lemma_blanks_idle(s, eq + 1);
}

/// How the url of another input moves: not at all before the literal that is replaced,
/// and with the text behind it.
pub open spec fn carried(r: Option<(int, int)>, b: int, d: int) -> Option<(int, int)> {
    match r {
        Some((c, e)) => if c <= b {
            r
        } else {
            Some((c + d, e + d))
        },
        None => None,
    }
}

proof fn lemma_carried(
    s: Seq<char>,
    t: Seq<char>,
    a: int,
    b: int,
    d: int,
    from: int,
    blocks: Seq<Option<Seq<char>>>,
    x: Seq<char>,
    y: Seq<char>,
    i: int,
)
    requires
        x != y,
        agree(s, t, a),
        shifted(s, t, b, d),
        a <= b,
        0 <= from <= i < s.len(),
        blocks_at(s, from, blocks, i) matches Some(at) && declares(s, i, at, x),
        assigned(s, i) == Some(a - 1),
        string_end(s, a) == Some(b + 1),
        string_end(t, a) == Some(b + 1 + d),
    ensures
        url_from(t, from, blocks, y) == carried(url_from(s, from, blocks, y), b, d),
        url_from(s, from, blocks, y) matches Some((c, e)) ==> c <= e < a || b < c,
    decreases i - from,
{
    assert(s.subrange(i, i + 3)[0] == s[i]);
    lemma_assigned_idle(s, i);
    lemma_skip_blanks(s, i + 3);
    lemma_skip_blanks(s, skip_blanks(s, i + 3) + 1);
    lemma_next(s, from);
    if from < i {
        let after = blocks_after(s, from, blocks);
        if next(s, from) > i {
            lemma_not_before(s, next(s, from), after, i);
        }
        lemma_agree_step(s, t, a, from, i);
        lemma_agree_belongs(s, t, a, from, blocks, y);
        if declares(s, from, blocks, y) {
            let quote = assigned(s, from)->0;
            lemma_blanks_stop(s, from + 3, i);
            let eq = skip_blanks(s, from + 3);
            lemma_skip_blanks(s, from + 3);
            lemma_blanks_stop(s, eq + 1, i);
            lemma_skip_blanks(s, eq + 1);
            lemma_assigned_idle(s, from);
            assert(s.subrange(from, from + 3)[0] == s[from]);
            lemma_idle(s, from + 3, quote, blocks, y, i);
            // The string ends before the declaration at `i`, or that could not be come by.
            lemma_next(s, quote);
            if next(s, quote) > i {
                lemma_not_before(s, next(s, quote), blocks_after(s, quote, blocks), i);
            }
            if text::occurs_at(s, seq!['/', '*'], quote) {
                assert(s.subrange(quote, quote + 2)[0] == s[quote]);
            }
            if text::occurs_at(s, seq!['\'', '\''], quote) {
                assert(s.subrange(quote, quote + 2)[0] == s[quote]);
            }
            let k = string_end(s, quote + 1)->0;
            lemma_agree_string(s, t, a, quote + 1);
            lemma_string_end(s, quote + 1);
            assert(s.subrange(quote + 1, k - 1) == t.subrange(quote + 1, k - 1));
        } else {
            lemma_carried(s, t, a, b, d, next(s, from), after, x, y, i);
            assert(blocks_after(t, from, blocks) == after);
        }
    } else {
        let quote = a - 1;
        lemma_url_name(x, y);
        lemma_agree_occurs(s, t, a, seq!['/', '*'], i);
        lemma_agree_occurs(s, t, a, seq!['\'', '\''], i);
        lemma_agree_occurs(s, t, a, seq!['u', 'r', 'l'], i);
        lemma_agree_belongs(s, t, a, i, blocks, y);
        assert(!declares(s, i, blocks, y));
        assert(!declares(t, i, blocks, y));
        assert(idle(t, i + 3, quote));
        lemma_idle(s, i + 3, quote, blocks, y, i);
        lemma_idle(t, i + 3, quote, blocks, y, i);
        assert(s[quote] == '"' && t[quote] == '"');
        if text::occurs_at(s, seq!['/', '*'], quote) || text::occurs_at(
            s,
            seq!['\'', '\''],
            quote,
        ) {
            assert(s.subrange(quote, quote + 2)[0] == s[quote]);
        }
        if text::occurs_at(t, seq!['/', '*'], quote) || text::occurs_at(
            t,
            seq!['\'', '\''],
            quote,
        ) {
            assert(t.subrange(quote, quote + 2)[0] == t[quote]);
        }
        lemma_shifted_url(s, t, b, d, b + 1, blocks, y);
        lemma_behind(s, b + 1, blocks, y);
    }
}

/// What is found from `from` on lies behind it.
proof fn lemma_behind(s: Seq<char>, from: int, blocks: Seq<Option<Seq<char>>>, name: Seq<char>)
    requires
        0 <= from,
    ensures
        url_from(s, from, blocks, name) matches Some((a, b)) ==> from < a <= b < s.len(),
{
    if let Some((a, b)) = url_from(s, from, blocks, name) {
        let i = lemma_url_from(s, from, blocks, name, a, b);
        lemma_skip_blanks(s, i + 3);
        lemma_skip_blanks(s, skip_blanks(s, i + 3) + 1);
        lemma_string_end(s, a);
    }
}

/// Replacing the url of one input leaves those of all the others as they are, wherever
/// in the file they stand.
pub proof fn law_other_urls_stay(
    s: Seq<char>,
    x: Seq<char>,
    y: Seq<char>,
    a: int,
    b: int,
    new: Seq<char>,
)
    requires
        x != y,
        url_in(s, x) == Some((a, b)),
        is_plain(new),
        !new.contains('"'),
    ensures
        match (url_in(s, y), url_in(replaced(s, a, b, new), y)) {
            (Some((c, e)), Some((f, g))) => replaced(s, a, b, new).subrange(f, g) == s.subrange(
                c,
                e,
            ),
            (None, None) => true,
            _ => false,
        },
{
    let t = replaced(s, a, b, new);
    let d = new.len() - (b - a);
    let i = lemma_url_from(s, 0, Seq::empty(), x, a, b);
    law_found_url_is_the_first_declared(s, x, a, b);
    lemma_string_end(s, a);
    assert forall|j: int| a <= j < a + new.len() implies t[j] != '"' && t[j] != '\\' by {
        assert(t[j] == new[j - a]);
        assert(new.contains(new[j - a]));
    }
    assert(t[a + new.len()] == s[b]);
    lemma_string_end_plain(t, a, a + new.len());
    assert(shifted(s, t, b, d));
    lemma_carried(s, t, a, b, d, 0, Seq::empty(), x, y, i);
    if let Some((c, e)) = url_in(s, y) {
        lemma_behind(s, 0, Seq::empty(), y);
        if c > b {
            assert forall|n: int| 0 <= n < e - c implies t.subrange(c + d, e + d)[n] == s.subrange(
                c,
                e,
            )[n] by {
                assert(t[(c + n) + d] == s[c + n]);
            }
            assert(t.subrange(c + d, e + d) == s.subrange(c, e));
        } else {
            assert(t.subrange(c, e) == s.subrange(c, e));
        }
    }
}

// ---------------------------------------------------------------------------
// Planned edits
// ---------------------------------------------------------------------------

/// A `flake.nix` edit that has been computed but not performed.
///
/// Separating this from applying it is what lets the plan be shown as a real
/// diff of real file contents before anything is written: the preview is not a
/// description of an intended edit, it *is* the edit, held in memory.
#[derive(Debug)]
pub struct PendingEdit {
    pub path: String,
    pub before: String,
    pub after: String,
    pub from_url: String,
    pub to_url: String,
}

impl Clone for PendingEdit {
    fn clone(&self) -> (r: Self)
        ensures
            r == *self,
    {
        PendingEdit {
            path: self.path.clone(),
            before: self.before.clone(),
            after: self.after.clone(),
            from_url: self.from_url.clone(),
            to_url: self.to_url.clone(),
        }
    }
}

impl PendingEdit {
    /// Whether this would change anything on disk.
    pub fn is_noop(&self) -> (r: bool)
        ensures
            r == (self.before@ == self.after@),
    {
        self.before == self.after
    }
}

/// Why an edit cannot be planned.
#[derive(Debug)]
pub enum EditError {
    /// The file could not be read.
    Unreadable { path: String },
    /// The input's url could not be located in it.
    NotLocated { input_name: String, path: String },
}

impl EditError {
    /// What the user is told.
    pub open spec fn message_text(self) -> Seq<char> {
        match self {
            EditError::Unreadable { path } => "reading "@ + path@,
            EditError::NotLocated { input_name, path } => "could not locate `"@ + input_name@
                + "`'s url in "@ + path@
                + " — its inputs block has a shape this tool will not edit blindly"@,
        }
    }

    /// What the user is told.
    pub fn message(&self) -> (r: String)
        ensures
            r@ == self.message_text(),
    {
        match self {
            EditError::Unreadable { path } => text::cat2("reading ", path.as_str()),
            EditError::NotLocated { input_name, path } => text::cat5(
                "could not locate `",
                input_name.as_str(),
                "`'s url in ",
                path.as_str(),
                " — its inputs block has a shape this tool will not edit blindly",
            ),
        }
    }
}

/// The `flake.nix` of a project.
pub open spec fn flake_nix(project: Seq<char>) -> Seq<char> {
    paths::below(project, "flake.nix"@)
}

/// The path of a project's `flake.nix`.
pub fn flake_nix_path(project: &str) -> (r: String)
    ensures
        r@ == flake_nix(project@),
{
    paths::join(project, "flake.nix")
}

/// Whether `edit` is the one that points the url of the input `name` in the
/// `flake.nix` of `project`, which reads `before`, at `url`: that literal is
/// replaced, and everything around it stays.
pub open spec fn is_edit(
    edit: PendingEdit,
    project: Seq<char>,
    name: Seq<char>,
    url: Seq<char>,
    before: Seq<char>,
) -> bool {
    &&& url_in(before, name) matches Some((a, b))
    &&& edit.path@ == flake_nix(project)
    &&& edit.before@ == before
    &&& edit.after@ == replaced(before, a, b, url)
    &&& edit.from_url@ == before.subrange(a, b)
    &&& edit.to_url@ == url
}

/// Compute the edit that points `input_name`'s url at `new_url`, without touching
/// disk. `source` is what the project's `flake.nix` reads, if it could be read.
///
/// Errors when the input's url cannot be located: an inputs block shaped in a way
/// this tool will not edit blindly is reported to the user (who can open it in
/// their editor), never guessed at.
pub fn plan_edit(
    project: &str,
    input_name: &str,
    new_url: &str,
    source: Option<String>,
) -> (r: Result<PendingEdit, EditError>)
    ensures
        match (source, r) {
            (Some(before), Ok(edit)) => is_edit(
                edit,
                project@,
                input_name@,
                new_url@,
                before@,
            ),
            (Some(before), Err(EditError::NotLocated { input_name: name, path })) => url_in(
                before@,
                input_name@,
            ) is None && name@ == input_name@ && path@ == flake_nix(project@),
            (None, Err(EditError::Unreadable { path })) => path@ == flake_nix(project@),
            _ => false,
        },
{
    let path = flake_nix_path(project);
    let before = match source {
        Some(text) => text,
        None => {
            return Err(EditError::Unreadable { path });
        },
    };
    let s = text::to_chars(before.as_str());
    let (a, b) = match locate(&s, input_name) {
        Some(range) => range,
        None => {
            return Err(EditError::NotLocated { input_name: input_name.to_owned(), path });
        },
    };
    let from_url = text::slice_text(&s, a, b);
    let mut after = text::slice_text(&s, 0, a);
    after.append(new_url);
    text::push_range(&mut after, &s, b, s.len());
    assert(after@ == replaced(s@, a as int, b as int, new_url@));
    Ok(PendingEdit { path, before, after, from_url, to_url: new_url.to_owned() })
}

/// Planning an edit again after it has been written changes nothing more: the url
/// is found where it was, and it is already the wanted one.
pub proof fn law_written_edit_is_a_noop(
    first: PendingEdit,
    again: PendingEdit,
    project: Seq<char>,
    name: Seq<char>,
    url: Seq<char>,
)
    requires
        is_edit(first, project, name, url, first.before@),
        is_edit(again, project, name, url, first.after@),
        is_plain(url),
        !url.contains('"'),
    ensures
        again.from_url@ == url,
        again.after@ == again.before@,
{
    let (a, b) = url_in(first.before@, name)->0;
    law_found_url_is_the_first_declared(first.before@, name, a, b);
    law_replaced_url_is_found_again(first.before@, name, a, b, url);
    let s = first.after@;
    assert(s.subrange(a, a + url.len()) == url);
    assert(replaced(s, a, a + url.len(), url) == s);
}

/// An edit changes the literal alone: what stands before it and what stands
/// behind it are carried over character for character.
pub proof fn law_edit_keeps_everything_else(
    edit: PendingEdit,
    project: Seq<char>,
    name: Seq<char>,
    url: Seq<char>,
)
    requires
        is_edit(edit, project, name, url, edit.before@),
    ensures
        url_in(edit.before@, name) matches Some((a, b)) && {
            let rest = edit.before@.len() - b;
            &&& 0 < a <= b < edit.before@.len()
            &&& edit.after@.len() == a + url.len() + rest
            &&& edit.after@.take(a) == edit.before@.take(a)
            &&& edit.after@.subrange(a, a + url.len()) == url
            &&& edit.after@.skip(a + url.len()) == edit.before@.skip(b)
        },
{
    let (a, b) = url_in(edit.before@, name)->0;
    law_found_url_is_the_first_declared(edit.before@, name, a, b);
    assert(edit.after@.take(a) == edit.before@.take(a));
    assert(edit.after@.subrange(a, a + url.len()) == url);
    assert(edit.after@.skip(a + url.len()) == edit.before@.skip(b));
}

// ---------------------------------------------------------------------------
// Applying an edit
// ---------------------------------------------------------------------------

/// Where the copy of `path` from before an edit is kept.
pub open spec fn backup_of(path: Seq<char>) -> Seq<char> {
    paths::with_extension(path, "nix.bak"@)
}

/// Where the pre-edit copy of `flake.nix` is kept.
pub fn backup_path(path: &str) -> (r: String)
    ensures
        r@ == backup_of(path@),
{
    paths::replace_extension(path, "nix.bak")
}

/// The backup of a project's `flake.nix` is `flake.nix.bak` beside it, so it never
/// overwrites the file it is a copy of.
pub proof fn law_backup_stands_beside_the_original(project: Seq<char>)
    ensures
        backup_of(flake_nix(project)) == paths::below(project, "flake.nix.bak"@),
        backup_of(flake_nix(project)) != flake_nix(project),
{
    reveal_strlit("flake.nix");
    reveal_strlit("nix.bak");
    reveal_strlit("flake.nix.bak");
    let name = "flake.nix"@;
    let path = flake_nix(project);
    assert(!name.contains('/'));
    paths::lemma_file_name_below(project, name);
    text::lemma_rfind_from(name, seq!['.'], 8);
    assert(name.subrange(5, 6) == seq!['.']);
    assert(text::occurs_at(name, seq!['.'], 5));
    assert forall|k: int| 5 < k <= 8 implies !text::occurs_at(name, seq!['.'], k) by {
        assert(name.subrange(k, k + 1)[0] == name[k]);
    }
    assert(paths::stem_len(name) == 5);
    let a = path.take(path.len() - name.len());
    assert(path.take(path.len() - 9 + 5) == a + name.take(5));
    assert(name.take(5).push('.') + "nix.bak"@ == "flake.nix.bak"@);
    assert(backup_of(path) == a + "flake.nix.bak"@);
    assert(paths::below(project, "flake.nix.bak"@) == a + "flake.nix.bak"@);
    assert(backup_of(path).len() == path.len() + 4);
}

/// What has to be done next for an edit to take effect.
#[derive(Debug)]
pub enum EditStep {
    /// Save the text from before the edit at `path`.
    WriteBackup { path: String, text: String },
    /// Write the edited text to `path`.
    WriteFile { path: String, text: String },
    /// Check that the flake in `project` still evaluates.
    Verify { project: String },
    /// Put the original text back at `path`, because of `error`.
    Restore { path: String, text: String, error: String },
    /// The edit stands, and the original is kept at `backup`.
    Applied { backup: String },
    /// The edit failed.
    Failed { error: String },
}

/// The directory whose flake an edit changes.
pub open spec fn edited_project(path: Seq<char>) -> Seq<char> {
    match paths::parent(path) {
        Some(dir) => dir,
        None => path,
    }
}

/// The first step of applying `edit`: none at all when it changes nothing.
pub open spec fn is_first_step(edit: PendingEdit, step: EditStep) -> bool {
    match step {
        EditStep::Applied { backup } => edit.before@ == edit.after@ && backup@ == backup_of(
            edit.path@,
        ),
        EditStep::WriteBackup { path, text } => edit.before@ != edit.after@ && path@ == backup_of(
            edit.path@,
        ) && text@ == edit.before@,
        _ => false,
    }
}

/// The first step of applying `edit` to a file whose backup is in place: the text from
/// before the first edit stays there to be restored by hand.
pub open spec fn is_first_step_again(edit: PendingEdit, step: EditStep) -> bool {
    match step {
        EditStep::Applied { backup } => edit.before@ == edit.after@ && backup@ == backup_of(
            edit.path@,
        ),
        EditStep::WriteFile { path, text } => edit.before@ != edit.after@ && path@ == edit.path@
            && text@ == edit.after@,
        _ => false,
    }
}

/// The step after `step`, which went well or failed with the given message.
pub open spec fn is_next_step(
    edit: PendingEdit,
    step: EditStep,
    failure: Option<Seq<char>>,
    next: EditStep,
) -> bool {
    match (step, failure) {
        (EditStep::WriteBackup { .. }, None) => next matches EditStep::WriteFile { path, text }
            && path@ == edit.path@ && text@ == edit.after@,
        (EditStep::WriteBackup { .. }, Some(_)) => next matches EditStep::Failed { error }
            && error@ == "writing backup "@ + backup_of(edit.path@),
        (EditStep::WriteFile { .. }, None) => next matches EditStep::Verify { project } && project@
            == edited_project(edit.path@),
        (EditStep::WriteFile { .. }, Some(_)) => next matches EditStep::Failed { error } && error@
            == "writing "@ + edit.path@,
        (EditStep::Verify { .. }, None) => next matches EditStep::Applied { backup } && backup@
            == backup_of(edit.path@),
        (EditStep::Verify { .. }, Some(why)) => next matches EditStep::Restore { path, text, error }
            && path@ == edit.path@ && text@ == edit.before@ && error@ == why,
        (EditStep::Restore { error: why, .. }, _) => next matches EditStep::Failed { error }
            && error@ == why@,
        (EditStep::Applied { backup: at }, _) => next matches EditStep::Applied { backup }
            && backup@ == at@,
        (EditStep::Failed { error: why }, _) => next matches EditStep::Failed { error } && error@
            == why@,
    }
}

/// Begin to apply a planned edit.
///
/// A backup is written before anything is modified, and a file that no longer
/// evaluates is restored — an unusable `flake.nix` is far worse than an un-merged
/// input. The backup is left in place afterwards so the user always has the
/// original to diff against or restore by hand.
pub fn apply_edit(edit: &PendingEdit) -> (r: EditStep)
    ensures
        is_first_step(*edit, r),
{
    let backup = backup_path(edit.path.as_str());
    if edit.is_noop() {
        return EditStep::Applied { backup };
    }
    EditStep::WriteBackup { path: backup, text: edit.before.clone() }
}

/// Begin to apply a planned edit to a file that an edit before it has changed. What the
/// backup holds is the text from before both, and it is not overwritten.
pub fn apply_edit_again(edit: &PendingEdit) -> (r: EditStep)
    ensures
        is_first_step_again(*edit, r),
{
    if edit.is_noop() {
        return EditStep::Applied { backup: backup_path(edit.path.as_str()) };
    }
    EditStep::WriteFile { path: edit.path.clone(), text: edit.after.clone() }
}

/// Go on with an edit, given how `step` went: `None` when it succeeded, a message
/// when it failed.
pub fn next_edit_step(edit: &PendingEdit, step: EditStep, failure: Option<String>) -> (r: EditStep)
    ensures
        is_next_step(*edit, step, text::view_of(failure), r),
{
    match (step, failure) {
        (EditStep::WriteBackup { .. }, None) => EditStep::WriteFile {
            path: edit.path.clone(),
            text: edit.after.clone(),
        },
        (EditStep::WriteBackup { .. }, Some(_)) => {
            let backup = backup_path(edit.path.as_str());
            EditStep::Failed { error: text::cat2("writing backup ", backup.as_str()) }
        },
        (EditStep::WriteFile { .. }, None) => {
            let project = match paths::parent_of(edit.path.as_str()) {
                Some(dir) => dir,
                None => edit.path.clone(),
            };
            EditStep::Verify { project }
        },
        (EditStep::WriteFile { .. }, Some(_)) => EditStep::Failed {
            error: text::cat2("writing ", edit.path.as_str()),
        },
        (EditStep::Verify { .. }, None) => EditStep::Applied {
            backup: backup_path(edit.path.as_str()),
        },
        (EditStep::Verify { .. }, Some(error)) => EditStep::Restore {
            path: edit.path.clone(),
            text: edit.before.clone(),
            error,
        },
        (EditStep::Restore { error, .. }, _) => EditStep::Failed { error },
        (EditStep::Applied { backup }, _) => EditStep::Applied { backup },
        (EditStep::Failed { error }, _) => EditStep::Failed { error },
    }
}

/// The command that confirms an edited flake still evaluates.
///
/// `--no-update-lock-file` keeps this a read-only check: the lockfile is the next
/// step's job, and a metadata call that rewrote it would obscure what the sync
/// actually did.
pub fn verify(project: &str) -> (r: Invocation)
    ensures
        r.program@ == "nix"@,
        text::texts(r.args@) == seq![
            "flake"@,
            "metadata"@,
            "--no-update-lock-file"@,
            "--no-write-lock-file"@,
        ],
        r.dir@ == project@,
{
    let args = command::owned_list(
        &["flake", "metadata", "--no-update-lock-file", "--no-write-lock-file"],
    );
    assert(text::texts(args@) == seq![
        "flake"@,
        "metadata"@,
        "--no-update-lock-file"@,
        "--no-write-lock-file"@,
    ]);
    Invocation { program: "nix".to_owned(), args, dir: project.to_owned() }
}

/// What is wrong with an edited flake, given how the check ran: nothing when it
/// succeeded.
pub fn verified(project: &str, ran: &Ran) -> (r: Option<String>)
    ensures
        text::view_of(r) == match *ran {
            Ran::Succeeded => None::<Seq<char>>,
            Ran::NotStarted => Some("running nix flake metadata in "@ + project@),
            Ran::Failed { stderr } => Some(
                "edited flake.nix no longer evaluates in "@ + project@
                    + " (restored from backup): "@ + text::trim(stderr@),
            ),
        },
{
    match ran {
        Ran::Succeeded => None,
        Ran::NotStarted => Some(text::cat2("running nix flake metadata in ", project)),
        Ran::Failed { stderr } => {
            let why = text::trimmed(stderr.as_str());
            Some(
                text::cat4(
                    "edited flake.nix no longer evaluates in ",
                    project,
                    " (restored from backup): ",
                    why.as_str(),
                ),
            )
        },
    }
}

/// What the files hold once `step` has been done.
pub open spec fn done(disk: Map<Seq<char>, Seq<char>>, step: EditStep) -> Map<
    Seq<char>,
    Seq<char>,
> {
    match step {
        EditStep::WriteBackup { path, text } => disk.insert(path@, text@),
        EditStep::WriteFile { path, text } => disk.insert(path@, text@),
        EditStep::Restore { path, text, .. } => disk.insert(path@, text@),
        _ => disk,
    }
}

/// When the edited flake does not evaluate, the original comes back character for
/// character, the backup holds it too, no other file was touched, and the failure
/// is reported as it was found.
pub proof fn law_rejected_edit_is_restored(
    edit: PendingEdit,
    disk: Map<Seq<char>, Seq<char>>,
    backup: EditStep,
    write: EditStep,
    verify: EditStep,
    restore: EditStep,
    end: EditStep,
    why: Seq<char>,
)
    requires
        edit.before@ != edit.after@,
        disk.dom().contains(edit.path@),
        disk[edit.path@] == edit.before@,
        is_first_step(edit, backup),
        is_next_step(edit, backup, None, write),
        is_next_step(edit, write, None, verify),
        is_next_step(edit, verify, Some(why), restore),
        is_next_step(edit, restore, None, end),
    ensures
        done(done(done(done(disk, backup), write), verify), restore) == disk.insert(
            backup_of(edit.path@),
            edit.before@,
        ),
        end matches EditStep::Failed { error } && error@ == why,
{
    let left = done(done(done(done(disk, backup), write), verify), restore);
    assert(left =~= disk.insert(backup_of(edit.path@), edit.before@));
}

/// The file is never modified before its backup is in place, and once an edit has
/// been applied both texts are on disk. Said of the `flake.nix` of a project.
pub proof fn law_applied_edit_keeps_a_backup(
    edit: PendingEdit,
    project: Seq<char>,
    disk: Map<Seq<char>, Seq<char>>,
    backup: EditStep,
    write: EditStep,
    verify: EditStep,
    end: EditStep,
)
    requires
        edit.path@ == flake_nix(project),
        edit.before@ != edit.after@,
        is_first_step(edit, backup),
        is_next_step(edit, backup, None, write),
        is_next_step(edit, write, None, verify),
        is_next_step(edit, verify, None, end),
    ensures
        done(disk, backup) == disk.insert(backup_of(edit.path@), edit.before@),
        done(done(done(disk, backup), write), verify)[edit.path@] == edit.after@,
        done(done(done(disk, backup), write), verify)[backup_of(edit.path@)] == edit.before@,
        end matches EditStep::Applied { backup: at } && at@ == backup_of(edit.path@),
{
    law_backup_stands_beside_the_original(project);
}

/// A second edit of a file leaves the backup as the first one wrote it, whether it
/// stands or is rejected; rejected, it leaves what the first one wrote.
pub proof fn law_a_second_edit_keeps_the_first_backup(
    edit: PendingEdit,
    project: Seq<char>,
    disk: Map<Seq<char>, Seq<char>>,
    write: EditStep,
    verify: EditStep,
    restore: EditStep,
    why: Seq<char>,
)
    requires
        edit.path@ == flake_nix(project),
        edit.before@ != edit.after@,
        disk.dom().contains(edit.path@),
        disk[edit.path@] == edit.before@,
        is_first_step_again(edit, write),
        is_next_step(edit, write, None, verify),
        is_next_step(edit, verify, Some(why), restore),
    ensures
        done(done(disk, write), verify) == disk.insert(edit.path@, edit.after@),
        done(disk, write)[backup_of(edit.path@)] == disk[backup_of(edit.path@)],
        done(done(done(disk, write), verify), restore) == disk,
{
    law_backup_stands_beside_the_original(project);
    assert(done(done(done(disk, write), verify), restore) =~= disk);
}

} // verus!
