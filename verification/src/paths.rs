//! Unix paths as text: their components, their order, and sets of them.
//!
//! Two spellings of a path are the same path when they have the same components,
//! and paths are ordered component by component.
use crate::order;
use crate::text;
use vstd::prelude::*;

verus! {

// ---------------------------------------------------------------------------
// Components
// ---------------------------------------------------------------------------

/// The pieces between slashes that count: not the empty ones, and not `.` unless
/// the path begins with it.
pub open spec fn kept_pieces(pieces: Seq<Seq<char>>) -> Seq<Seq<char>>
    decreases pieces.len(),
{
    if pieces.len() == 0 {
        pieces
    } else {
        let head = kept_pieces(pieces.drop_last());
        if pieces.last().len() == 0 || (pieces.last() == seq!['.'] && pieces.len() > 1) {
            head
        } else {
            head.push(pieces.last())
        }
    }
}

/// The components of a path. That of the root is `/`.
pub open spec fn components(p: Seq<char>) -> Seq<Seq<char>> {
    let pieces = kept_pieces(text::split(p, '/'));
    if is_absolute(p) {
        seq![seq!['/']] + pieces
    } else {
        pieces
    }
}

/// Whether a path begins at the root.
pub open spec fn is_absolute(p: Seq<char>) -> bool {
    p.len() > 0 && p[0] == '/'
}

/// Whether two texts spell the same path.
pub open spec fn same_path(p: Seq<char>, q: Seq<char>) -> bool {
    components(p) == components(q)
}

/// Where a component stands among the kinds of component: the root, `.`, `..`,
/// and then the names.
pub open spec fn kind_of(c: Seq<char>) -> int {
    if c == seq!['/'] {
        0
    } else if c == seq!['.'] {
        1
    } else if c == seq!['.', '.'] {
        2
    } else {
        3
    }
}

/// The order of components: by kind, then by name.
pub open spec fn component_lt(a: Seq<char>, b: Seq<char>) -> bool {
    kind_of(a) < kind_of(b) || (kind_of(a) == kind_of(b) && text::chars_lt(a, b))
}

/// The order of component sequences, first difference first.
pub open spec fn components_lt(a: Seq<Seq<char>>, b: Seq<Seq<char>>) -> bool
    decreases a.len(),
{
    if b.len() == 0 {
        false
    } else if a.len() == 0 {
        true
    } else if a[0] != b[0] {
        component_lt(a[0], b[0])
    } else {
        components_lt(a.drop_first(), b.drop_first())
    }
}

/// The order of paths.
pub open spec fn path_lt(p: Seq<char>, q: Seq<char>) -> bool {
    components_lt(components(p), components(q))
}

proof fn lemma_component_total(a: Seq<char>, b: Seq<char>)
    ensures
        a == b || component_lt(a, b) || component_lt(b, a),
        !component_lt(a, a),
{
    text::lemma_chars_lt_total(a, b);
    text::lemma_chars_lt_irreflexive(a);
}

proof fn lemma_component_transitive(a: Seq<char>, b: Seq<char>, c: Seq<char>)
    requires
        component_lt(a, b),
        component_lt(b, c),
    ensures
        component_lt(a, c),
{
    if kind_of(a) == kind_of(b) && kind_of(b) == kind_of(c) {
        text::lemma_chars_lt_transitive(a, b, c);
    }
}

proof fn lemma_components_irreflexive(a: Seq<Seq<char>>)
    ensures
        !components_lt(a, a),
    decreases a.len(),
{
    if a.len() > 0 {
        lemma_components_irreflexive(a.drop_first());
    }
}

proof fn lemma_components_transitive(a: Seq<Seq<char>>, b: Seq<Seq<char>>, c: Seq<Seq<char>>)
    requires
        components_lt(a, b),
        components_lt(b, c),
    ensures
        components_lt(a, c),
    decreases a.len(),
{
    if a.len() > 0 {
        if a[0] == b[0] && b[0] == c[0] {
            lemma_components_transitive(a.drop_first(), b.drop_first(), c.drop_first());
        } else if a[0] != b[0] && b[0] != c[0] {
            lemma_component_transitive(a[0], b[0], c[0]);
            lemma_component_total(a[0], a[0]);
        }
    }
}

proof fn lemma_components_total(a: Seq<Seq<char>>, b: Seq<Seq<char>>)
    ensures
        a == b || components_lt(a, b) || components_lt(b, a),
    decreases a.len(),
{
    if a.len() == 0 || b.len() == 0 {
        if a.len() == b.len() {
            assert(a =~= b);
        }
    } else if a[0] == b[0] {
        lemma_components_total(a.drop_first(), b.drop_first());
        if a.drop_first() == b.drop_first() {
            assert(a =~= seq![a[0]] + a.drop_first());
            assert(b =~= seq![b[0]] + b.drop_first());
        }
    } else {
        lemma_component_total(a[0], b[0]);
    }
}

/// The order of paths, as a relation.
pub open spec fn by_path() -> spec_fn(Seq<char>, Seq<char>) -> bool {
    |a: Seq<char>, b: Seq<char>| path_lt(a, b)
}

/// The order of texts, as a relation.
pub open spec fn by_text() -> spec_fn(Seq<char>, Seq<char>) -> bool {
    |a: Seq<char>, b: Seq<char>| text::chars_lt(a, b)
}

/// Paths are in a strict order that tells two texts apart just when they spell
/// different paths.
pub proof fn lemma_path_order()
    ensures
        order::is_strict_order(by_path()),
        forall|p: Seq<char>, q: Seq<char>|
            same_path(p, q) <==> !#[trigger] path_lt(p, q) && !path_lt(q, p),
{
    let lt = by_path();
    assert forall|a: Seq<char>| !#[trigger] lt(a, a) by {
        lemma_components_irreflexive(components(a));
    }
    assert forall|a: Seq<char>, b: Seq<char>, c: Seq<char>| #[trigger]
        lt(a, b) && #[trigger] lt(b, c) implies lt(a, c) by {
        lemma_components_transitive(components(a), components(b), components(c));
    }
    assert forall|a: Seq<char>, b: Seq<char>, c: Seq<char>| #[trigger]
        lt(a, c) implies #[trigger] lt(a, b) || lt(b, c) by {
        lemma_components_total(components(a), components(b));
        if components_lt(components(b), components(a)) {
            lemma_components_transitive(components(b), components(a), components(c));
        }
    }
    assert forall|p: Seq<char>, q: Seq<char>|
        same_path(p, q) <==> !#[trigger] path_lt(p, q) && !path_lt(q, p) by {
        lemma_components_total(components(p), components(q));
        lemma_components_irreflexive(components(p));
    }
}

/// Texts are in a strict order that tells apart any two that differ.
pub proof fn lemma_text_order()
    ensures
        order::is_strict_order(by_text()),
        forall|p: Seq<char>, q: Seq<char>|
            p == q <==> !#[trigger] text::chars_lt(p, q) && !text::chars_lt(q, p),
{
    let lt = by_text();
    assert forall|a: Seq<char>| !#[trigger] lt(a, a) by {
        text::lemma_chars_lt_irreflexive(a);
    }
    assert forall|a: Seq<char>, b: Seq<char>, c: Seq<char>| #[trigger]
        lt(a, b) && #[trigger] lt(b, c) implies lt(a, c) by {
        text::lemma_chars_lt_transitive(a, b, c);
    }
    assert forall|a: Seq<char>, b: Seq<char>, c: Seq<char>| #[trigger]
        lt(a, c) implies #[trigger] lt(a, b) || lt(b, c) by {
        text::lemma_chars_lt_total(a, b);
        if text::chars_lt(b, a) {
            text::lemma_chars_lt_transitive(b, a, c);
        }
    }
    assert forall|p: Seq<char>, q: Seq<char>|
        p == q <==> !#[trigger] text::chars_lt(p, q) && !text::chars_lt(q, p) by {
        text::lemma_chars_lt_total(p, q);
        text::lemma_chars_lt_irreflexive(p);
    }
}

/// The components of a path.
pub fn components_of(p: &str) -> (r: Vec<String>)
    ensures
        text::texts(r@) == components(p@),
{
    let chars = text::to_chars(p);
    let pieces = text::split_at_char(p, '/');
    let ghost all = text::texts(pieces@);
    let mut r: Vec<String> = Vec::new();
    let ghost root: Seq<Seq<char>> = if is_absolute(p@) {
        seq![seq!['/']]
    } else {
        Seq::empty()
    };
    if chars.len() > 0 && chars[0] == '/' {
        let mut slash = String::new();
        slash.push('/');
        assert(slash@ == seq!['/']);
        r.push(slash);
        assert(text::texts(r@) == root);
    } else {
        assert(text::texts(r@) == root);
    }
    let mut i: usize = 0;
    assert(text::texts(r@) == root + kept_pieces(all.take(0)));
    while i < pieces.len()
        invariant
            i <= pieces.len(),
            all == text::texts(pieces@),
            text::texts(r@) == root + kept_pieces(all.take(i as int)),
        decreases pieces.len() - i,
    {
        assert(all.take(i + 1).drop_last() == all.take(i as int));
        let piece = text::to_chars(pieces[i].as_str());
        let dot = piece.len() == 1 && piece[0] == '.';
        assert(dot ==> piece@ =~= seq!['.']);
        assert(piece@ == seq!['.'] ==> dot);
        let ghost done = r@;
        if piece.len() > 0 && !(dot && i > 0) {
            r.push(pieces[i].clone());
            assert(text::texts(r@) == text::texts(done).push(all[i as int]));
        }
        i += 1;
    }
    assert(all.take(pieces.len() as int) == all);
    assert(text::texts(r@) == components(p@));
    r
}

fn kind(c: &Vec<char>) -> (r: u8)
    ensures
        r == kind_of(c@),
{
    if c.len() == 1 && c[0] == '/' {
        assert(c@ == seq!['/']);
        0
    } else if c.len() == 1 && c[0] == '.' {
        assert(c@ == seq!['.']);
        1
    } else if c.len() == 2 && c[0] == '.' && c[1] == '.' {
        assert(c@ == seq!['.', '.']);
        2
    } else {
        3
    }
}

fn component_before(a: &Vec<char>, b: &Vec<char>) -> (r: bool)
    ensures
        r == component_lt(a@, b@),
{
    let i = kind(a);
    let j = kind(b);
    i < j || (i == j && text::chars_before(a, b))
}

/// Whether the path `p` comes before the path `q`.
pub fn path_before(p: &str, q: &str) -> (r: bool)
    ensures
        r == path_lt(p@, q@),
{
    let a = components_of(p);
    let b = components_of(q);
    let ghost x = text::texts(a@);
    let ghost y = text::texts(b@);
    let mut i: usize = 0;
    assert(x.skip(0) == x);
    assert(y.skip(0) == y);
    while i < a.len() && i < b.len()
        invariant
            i <= a.len(),
            i <= b.len(),
            x == text::texts(a@),
            y == text::texts(b@),
            x == components(p@),
            y == components(q@),
            components_lt(x, y) == components_lt(x.skip(i as int), y.skip(i as int)),
        decreases a.len() - i,
    {
        let c = text::to_chars(a[i].as_str());
        let d = text::to_chars(b[i].as_str());
        if !text::same_chars(&c, &d) {
            return component_before(&c, &d);
        }
        assert(x.skip(i as int).drop_first() == x.skip(i + 1));
        assert(y.skip(i as int).drop_first() == y.skip(i + 1));
        i += 1;
    }
    i < b.len()
}

/// Whether `p` and `q` spell the same path.
pub fn is_same_path(p: &str, q: &str) -> (r: bool)
    ensures
        r == same_path(p@, q@),
{
    proof {
        lemma_path_order();
    }
    !path_before(p, q) && !path_before(q, p)
}

// ---------------------------------------------------------------------------
// Parts of a path
// ---------------------------------------------------------------------------

/// The component sequence `part` stands in `whole` at position `i`.
pub open spec fn stands_at(whole: Seq<Seq<char>>, part: Seq<Seq<char>>, i: int) -> bool {
    0 <= i && i + part.len() <= whole.len() && whole.subrange(i, i + part.len()) == part
}

/// Whether `part` stands in `whole` at position `i`.
pub fn components_at(whole: &Vec<String>, part: &Vec<String>, i: usize) -> (r: bool)
    requires
        i <= whole.len(),
    ensures
        r == stands_at(text::texts(whole@), text::texts(part@), i as int),
{
    let ghost x = text::texts(whole@);
    let ghost y = text::texts(part@);
    if part.len() > whole.len() - i {
        return false;
    }
    let mut k: usize = 0;
    while k < part.len()
        invariant
            k <= part.len(),
            i + part.len() <= whole.len(),
            x == text::texts(whole@),
            y == text::texts(part@),
            forall|j: int| 0 <= j < k ==> x[i + j] == y[j],
        decreases part.len() - k,
    {
        if !text::same(whole[i + k].as_str(), part[k].as_str()) {
            assert(x.subrange(i as int, i + y.len())[k as int] == x[i + k]);
            return false;
        }
        k += 1;
    }
    assert(x.subrange(i as int, i + y.len()) == y);
    true
}

/// How long what precedes the first removable component of `p` is: the root, or a
/// leading `.`.
pub open spec fn fixed_len(p: Seq<char>) -> int {
    if is_absolute(p) || (p.len() > 0 && p[0] == '.' && (p.len() == 1 || p[1] == '/')) {
        1
    } else {
        0
    }
}

/// `p` without the slashes and `.` components at its end, which name nothing.
pub open spec fn without_tail(p: Seq<char>) -> Seq<char>
    decreases p.len(),
{
    if p.len() <= fixed_len(p) {
        p
    } else if p.last() == '/' || (p.len() > 1 && p.last() == '.' && p[p.len() - 2] == '/') {
        without_tail(p.drop_last())
    } else {
        p
    }
}

/// `p` without what follows the last slash behind its first `fixed` characters.
pub open spec fn cut_back(p: Seq<char>, fixed: int) -> Seq<char>
    decreases p.len(),
{
    if p.len() == 0 || p.len() <= fixed || p.last() == '/' {
        p
    } else {
        cut_back(p.drop_last(), fixed)
    }
}

/// `p` without the component at its end.
pub open spec fn without_last(p: Seq<char>) -> Seq<char> {
    cut_back(p, fixed_len(p))
}

/// The path `p` without its last component, if it has one to lose.
pub open spec fn parent(p: Seq<char>) -> Option<Seq<char>> {
    let q = without_tail(p);
    if q.len() == 0 || q == seq!['/'] {
        None
    } else if q == seq!['.'] {
        Some(Seq::empty())
    } else {
        Some(without_tail(without_last(q)))
    }
}

/// The last component of `p`, if it is a name.
pub open spec fn file_name(p: Seq<char>) -> Option<Seq<char>> {
    let q = without_tail(p);
    let last = q.skip(without_last(q).len() as int);
    if last.len() == 0 || last == seq!['.', '.'] {
        None
    } else {
        Some(last)
    }
}

/// How long a file name is without its extension. A leading dot begins none.
pub open spec fn stem_len(name: Seq<char>) -> int {
    match text::rfind_from(name, seq!['.'], name.len() - 1) {
        Some(k) => if k > 0 {
            k
        } else {
            name.len() as int
        },
        None => name.len() as int,
    }
}

/// `p` with the extension of its file name replaced by `ext`. A path that names
/// no file stays as it is.
pub open spec fn with_extension(p: Seq<char>, ext: Seq<char>) -> Seq<char> {
    match file_name(p) {
        Some(name) => {
            let q = without_tail(p);
            q.take(q.len() - name.len() + stem_len(name)).push('.') + ext
        },
        None => p,
    }
}

/// The path of `name`, a relative one, below `base`.
pub open spec fn below(base: Seq<char>, name: Seq<char>) -> Seq<char> {
    if base.len() == 0 || base.last() == '/' {
        base + name
    } else {
        base.push('/') + name
    }
}

fn fixed(p: &Vec<char>, n: usize) -> (r: usize)
    requires
        n <= p.len(),
    ensures
        r == fixed_len(p@.take(n as int)),
{
    if n > 0 && (p[0] == '/' || (p[0] == '.' && (n == 1 || p[1] == '/'))) {
        1
    } else {
        0
    }
}

fn tail_start(p: &Vec<char>, end: usize) -> (r: usize)
    requires
        end <= p.len(),
    ensures
        r <= end,
        p@.take(r as int) == without_tail(p@.take(end as int)),
{
    let mut n: usize = end;
    while n > fixed(p, n) && (p[n - 1] == '/' || (n > 1 && p[n - 1] == '.' && p[n - 2] == '/'))
        invariant
            n <= end <= p.len(),
            without_tail(p@.take(n as int)) == without_tail(p@.take(end as int)),
        decreases n,
    {
        assert(p@.take(n as int).drop_last() == p@.take(n - 1));
        n -= 1;
    }
    n
}

fn last_start(p: &Vec<char>, end: usize) -> (r: usize)
    requires
        end <= p.len(),
    ensures
        r <= end,
        p@.take(r as int) == without_last(p@.take(end as int)),
{
    let kept: usize = fixed(p, end);
    let mut n: usize = end;
    while n > kept && p[n - 1] != '/'
        invariant
            n <= end <= p.len(),
            kept == fixed_len(p@.take(end as int)),
            cut_back(p@.take(n as int), kept as int) == without_last(p@.take(end as int)),
        decreases n,
    {
        assert(p@.take(n as int).drop_last() == p@.take(n - 1));
        n -= 1;
    }
    n
}

/// The path `p` without its last component, if it has one to lose.
pub fn parent_of(p: &str) -> (r: Option<String>)
    ensures
        match parent(p@) {
            Some(t) => r matches Some(s) && s@ == t,
            None => r is None,
        },
{
    let x = text::to_chars(p);
    assert(x@.take(x.len() as int) == x@);
    let n = tail_start(&x, x.len());
    if n == 0 || (n == 1 && x[0] == '/') {
        assert(n == 1 ==> x@.take(1) == seq!['/']);
        return None;
    }
    if n == 1 && x[0] == '.' {
        assert(x@.take(1) == seq!['.']);
        return Some(String::new());
    }
    assert(x@.take(n as int)[0] == x@[0]);
    let k = last_start(&x, n);
    let m = tail_start(&x, k);
    let s = text::slice_text(&x, 0, m);
    assert(s@ == x@.take(m as int));
    Some(s)
}

/// Where the file name of `p` begins and ends, if `p` names a file.
fn file_name_range(x: &Vec<char>) -> (r: Option<(usize, usize)>)
    ensures
        match file_name(x@) {
            Some(t) => r matches Some((a, b)) && a <= b <= x.len() && x@.take(b as int)
                == without_tail(x@) && x@.subrange(a as int, b as int) == t,
            None => r is None,
        },
{
    assert(x@.take(x.len() as int) == x@);
    let n = tail_start(x, x.len());
    let k = last_start(x, n);
    let ghost q = without_tail(x@);
    assert(q.skip(k as int) == x@.subrange(k as int, n as int));
    if n == k {
        return None;
    }
    if n - k == 2 && x[k] == '.' && x[k + 1] == '.' {
        assert(q.skip(k as int) == seq!['.', '.']);
        return None;
    }
    assert(q.skip(k as int) == seq!['.', '.'] ==> q.skip(k as int)[0] == '.' && q.skip(
        k as int,
    )[1] == '.');
    Some((k, n))
}

/// The last component of `p`, if it is a name.
pub fn file_name_of(p: &str) -> (r: Option<String>)
    ensures
        match file_name(p@) {
            Some(t) => r matches Some(s) && s@ == t,
            None => r is None,
        },
{
    let x = text::to_chars(p);
    match file_name_range(&x) {
        Some((a, b)) => Some(text::slice_text(&x, a, b)),
        None => None,
    }
}

/// `p` with the extension of its file name replaced by `ext`.
pub fn replace_extension(p: &str, ext: &str) -> (r: String)
    ensures
        r@ == with_extension(p@, ext@),
{
    let x = text::to_chars(p);
    match file_name_range(&x) {
        Some((a, b)) => {
            let name = text::slice_text(&x, a, b);
            let chars = text::to_chars(name.as_str());
            let mut dot: Vec<char> = Vec::new();
            dot.push('.');
            assert(dot@ == seq!['.']);
            assert(chars.len() <= b);
            let stem: usize = if chars.len() == 0 {
                0
            } else {
                match text::rposition_from(&chars, &dot, chars.len() - 1) {
                    Some(k) => if k > 0 {
                        k
                    } else {
                        chars.len()
                    },
                    None => chars.len(),
                }
            };
            let mut r = text::slice_text(&x, 0, a + stem);
            let ghost q = without_tail(p@);
            assert(r@ == q.take(q.len() - name@.len() + stem_len(name@)));
            r.push('.');
            r.append(ext);
            r
        },
        None => p.to_owned(),
    }
}

proof fn lemma_cut_back(a: Seq<char>, w: Seq<char>, fixed: int)
    requires
        a.len() == 0 || a.last() == '/',
        fixed <= a.len(),
        !w.contains('/'),
    ensures
        cut_back(a + w, fixed) == a,
    decreases w.len(),
{
    if w.len() == 0 {
        assert(a + w == a);
    } else {
        let shorter = w.drop_last();
        assert((a + w).last() == w.last());
        assert(w.contains(w.last()));
        assert forall|i: int| 0 <= i < shorter.len() implies shorter[i] != '/' by {
            assert(w[i] == shorter[i]);
            assert(w.contains(w[i]));
        }
        assert((a + w).drop_last() == a + shorter);
        lemma_cut_back(a, shorter, fixed);
    }
}

/// The file `name` below a directory is called `name`. Said of a name that does
/// not begin with a dot and ends neither with a dot nor with a slash.
pub proof fn lemma_file_name_below(base: Seq<char>, name: Seq<char>)
    requires
        name.len() > 0,
        name[0] != '.',
        name.last() != '.',
        !name.contains('/'),
    ensures
        file_name(below(base, name)) == Some(name),
        without_tail(below(base, name)) == below(base, name),
        below(base, name).take(below(base, name).len() - name.len()) + name == below(base, name),
{
    let p = below(base, name);
    let a = p.take(p.len() - name.len());
    assert(p == a + name);
    assert(p.last() == name.last());
    assert(name.contains(name.last()));
    assert(name.contains(name[0]));
    assert(p[0] == if a.len() == 0 {
        name[0]
    } else {
        a[0]
    });
    lemma_cut_back(a, name, fixed_len(p));
    assert(p.skip(a.len() as int) == name);
    assert(name == seq!['.', '.'] ==> name[0] == '.');
}

/// The path of `name`, a relative one, below `base`.
pub fn join(base: &str, name: &str) -> (r: String)
    ensures
        r@ == below(base@, name@),
{
    let x = text::to_chars(base);
    if x.len() == 0 || x[x.len() - 1] == '/' {
        text::cat2(base, name)
    } else {
        let mut r = base.to_owned();
        r.push('/');
        r.append(name);
        r
    }
}

// ---------------------------------------------------------------------------
// What holds of paths
// ---------------------------------------------------------------------------

/// Whether `c` is a component that names something: no slash in it, and neither empty
/// nor `.`.
pub open spec fn is_piece(c: Seq<char>) -> bool {
    c.len() > 0 && !c.contains('/') && c != seq!['.']
}

proof fn lemma_pieces(parts: Seq<Seq<char>>)
    requires
        forall|i: int| 0 <= i < parts.len() ==> is_piece(#[trigger] parts[i]),
        parts.len() > 0,
    ensures
        text::split(text::joined(parts, seq!['/']), '/') == parts,
        kept_pieces(parts) == parts,
        text::joined(parts, seq!['/']).len() > 0,
        text::joined(parts, seq!['/'])[0] == parts[0][0],
    decreases parts.len(),
{
    let all = text::joined(parts, seq!['/']);
    let x = parts.last();
    assert(is_piece(parts[parts.len() - 1]));
    if parts.len() == 1 {
        assert(all == x);
        text::lemma_split_none(x, '/');
        assert(parts =~= seq![x]);
        assert(kept_pieces(parts.drop_last()) =~= Seq::<Seq<char>>::empty());
        assert(kept_pieces(parts) =~= parts);
    } else {
        let head = parts.drop_last();
        assert forall|i: int| 0 <= i < head.len() implies is_piece(#[trigger] head[i]) by {
            assert(head[i] == parts[i]);
        }
        lemma_pieces(head);
        let front = text::joined(head, seq!['/']);
        assert(all =~= front.push('/') + x);
        text::lemma_split_end(front, '/');
        text::lemma_split_more(front.push('/'), x, '/');
        assert(head.push(Seq::<char>::empty()).drop_last() =~= head);
        assert(Seq::<char>::empty() + x =~= x);
        assert(head.push(x) =~= parts);
    }
}

/// A path is its components, in order: those that are written with slashes between them
/// are read back, below the root and elsewhere.
pub proof fn law_components_are_read_back(parts: Seq<Seq<char>>)
    requires
        parts.len() > 0,
        forall|i: int| 0 <= i < parts.len() ==> is_piece(#[trigger] parts[i]),
    ensures
        components(text::joined(parts, seq!['/'])) == parts,
        components(seq!['/'] + text::joined(parts, seq!['/'])) == seq![seq!['/']] + parts,
        components(text::joined(parts, seq!['/']).push('/')) == parts,
{
    let p = text::joined(parts, seq!['/']);
    lemma_pieces(parts);
    assert(is_piece(parts[0]));
    assert(parts[0].contains(parts[0][0]));
    let q = seq!['/'] + p;
    text::lemma_split_after(p, '/');
    assert(q.len() > 0 && q[0] == '/');
    lemma_kept_empty(parts);
    text::lemma_split_end(p, '/');
    let more = parts.push(Seq::<char>::empty());
    assert(more.drop_last() =~= parts);
    assert(kept_pieces(more) == parts);
    assert(p.push('/')[0] == p[0]);
}

proof fn lemma_kept_empty(parts: Seq<Seq<char>>)
    requires
        forall|i: int| 0 <= i < parts.len() ==> is_piece(#[trigger] parts[i]),
    ensures
        kept_pieces(seq![Seq::<char>::empty()] + parts) == parts,
    decreases parts.len(),
{
    let all = seq![Seq::<char>::empty()] + parts;
    if parts.len() == 0 {
        let none = all.drop_last();
        assert(all.last() == Seq::<char>::empty());
        assert(none.len() == 0);
        assert(kept_pieces(none) == none);
        assert(kept_pieces(all) == kept_pieces(none));
        assert(kept_pieces(all) =~= parts);
    } else {
        let head = parts.drop_last();
        assert forall|i: int| 0 <= i < head.len() implies is_piece(#[trigger] head[i]) by {
            assert(head[i] == parts[i]);
        }
        lemma_kept_empty(head);
        assert(all.drop_last() =~= seq![Seq::<char>::empty()] + head);
        assert(is_piece(parts[parts.len() - 1]));
        assert(head.push(parts.last()) =~= parts);
    }
}

/// The directory of a file below `base` is `base`, where `base` ends with a name.
pub proof fn law_a_file_lies_in_its_directory(base: Seq<char>, name: Seq<char>)
    requires
        base.len() > 0,
        base.last() != '/',
        base.last() != '.',
        name.len() > 0,
        name[0] != '.',
        name.last() != '.',
        !name.contains('/'),
    ensures
        parent(below(base, name)) == Some(base),
        file_name(below(base, name)) == Some(name),
{
    lemma_file_name_below(base, name);
    let p = below(base, name);
    let a = base.push('/');
    assert(p =~= a + name);
    assert(p[0] == base[0]);
    if base.len() > 1 {
        assert(p[1] == base[1]);
    } else {
        assert(p[1] == '/');
    }
    lemma_cut_back(a, name, fixed_len(p));
    assert(without_last(p) == a);
    assert(a.drop_last() =~= base);
    assert(a[0] == base[0]);
    assert(without_tail(base) == base);
    assert(without_tail(a) == base);
}

} // verus!
