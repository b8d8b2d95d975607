//! Nix store accounting: what a pin actually costs on disk, and what deduplicating
//! it would really free.
//!
//! The key fact driving this module: aligning two lockfiles frees nothing by
//! itself. The bytes are held by GC roots — overwhelmingly `direnv`'s
//! `.direnv/flake-inputs/<store-path>` symlinks, which pin each project's inputs so
//! the garbage collector cannot touch them. A source path stops costing anything
//! only once *every* root referencing it is gone.
//!
//! So savings are only claimed for a store path that is rooted by exactly the
//! projects about to be migrated away from it. A path shared with a project that is
//! not touched stays put, and reporting it as reclaimable would be a lie.
use crate::keyed::{ByPath, ByText, KeyOrder, PathMap, PathSet, TextSet};
use crate::numbers;
use crate::order;
use crate::paths;
use crate::text;
use vstd::prelude::*;

verus! {

// ---------------------------------------------------------------------------
// Roots
// ---------------------------------------------------------------------------

/// A store path retained by at least one GC root.
#[derive(Debug)]
pub struct RootedPath {
    /// The path itself; the map key carries the same value.
    pub store_path: String,
    /// Projects whose `.direnv/flake-inputs` roots retain this path. Dropping all
    /// of these is within the tool's power.
    pub retained_by: PathSet,
    /// Roots outside direnv that hold this path: profiles, `result` symlinks,
    /// running processes (`{lsof}`). Such a path cannot be reclaimed by editing
    /// lockfiles, whatever becomes of the direnv roots.
    ///
    /// Kept by name rather than as a flag so the roots view can answer *what* is
    /// pinning a path, which is the question a bare bool cannot.
    pub external_roots: TextSet,
    pub size_bytes: u64,
}

/// Whether a root is a running process rather than a durable pin.
pub open spec fn is_process(root: Seq<char>) -> bool {
    root.len() > 0 && root[0] == '{' && root.last() == '}'
}

/// Whether a root is a running process rather than a durable pin.
///
/// The daemon censors these to `{lsof}`, `{temp:<pid>}` and `{censored}`: they name
/// no filesystem path and vanish when the process exits, so they say nothing about
/// whether a path is durably held. Treated separately from profiles and `result`
/// symlinks, which persist across reboots and are the external pins actually worth
/// reading.
pub fn is_process_root(root: &str) -> (r: bool)
    ensures
        r == is_process(root@),
{
    let x = text::to_chars(root);
    x.len() > 0 && x[0] == '{' && x[x.len() - 1] == '}'
}

/// The roots that do, or do not, belong to running processes.
pub open spec fn roots_of_kind(roots: Seq<Seq<char>>, process: bool) -> Seq<Seq<char>> {
    roots.filter(|r: Seq<char>| is_process(r) == process)
}

fn select_roots(roots: &TextSet, process: bool) -> (r: Vec<String>)
    ensures
        text::texts(r@) == roots_of_kind(roots@, process),
{
    let ghost keep = |r: Seq<char>| is_process(r) == process;
    let mut r: Vec<String> = Vec::new();
    let mut i: usize = 0;
    assert(roots@.take(0).filter(keep) == Seq::<Seq<char>>::empty()) by {
        reveal(Seq::filter);
    }
    while i < roots.len()
        invariant
            i <= roots@.len(),
            keep == (|r: Seq<char>| is_process(r) == process),
            text::texts(r@) == roots@.take(i as int).filter(keep),
        decreases roots@.len() - i,
    {
        proof {
            reveal(Seq::filter);
            assert(roots@.take(i + 1).drop_last() == roots@.take(i as int));
        }
        let ghost done = r@;
        let root = roots.get(i);
        if is_process_root(root.as_str()) == process {
            r.push(root.clone());
            assert(text::texts(r@) == text::texts(done).push(root@));
        }
        i += 1;
    }
    assert(roots@.take(i as int) == roots@);
    r
}

impl RootedPath {
    /// Whether anything outside direnv holds this path.
    ///
    /// Process roots count here even though the view hides them by default: a path a
    /// process has open is genuinely not reclaimable right now, and letting the
    /// filter reach this would overstate savings.
    pub fn pinned_elsewhere(&self) -> (r: bool)
        ensures
            r == (self.external_roots@.len() > 0),
    {
        !self.external_roots.is_empty()
    }

    /// External roots that persist: profiles, `result` symlinks, channels.
    pub fn durable_roots(&self) -> (r: Vec<String>)
        ensures
            text::texts(r@) == roots_of_kind(self.external_roots@, false),
    {
        select_roots(&self.external_roots, false)
    }

    /// External roots belonging to running processes.
    pub fn process_roots(&self) -> (r: Vec<String>)
        ensures
            text::texts(r@) == roots_of_kind(self.external_roots@, true),
    {
        select_roots(&self.external_roots, true)
    }
}

// ---------------------------------------------------------------------------
// Reading the root list
// ---------------------------------------------------------------------------

/// What one line of the root list says: the root, and the store path it holds. A
/// line of another shape, or about another place, says nothing.
pub open spec fn root_in(line: Seq<char>) -> Option<(Seq<char>, Seq<char>)> {
    match text::rfind_from(line, " -> "@, line.len() as int) {
        Some(k) => {
            let root = text::trim(line.take(k));
            let target = text::trim(line.skip(k + " -> "@.len()));
            if text::begins(target, "/nix/store/"@) {
                Some((text::strip_back(text::strip_front(root, '"'), '"'), target))
            } else {
                None
            }
        },
        None => None,
    }
}

/// Parse one `nix-store --gc --print-roots` line: `"<root>" -> <store path>`.
///
/// Roots the daemon censors (`{lsof}`, `{censored}`) name no filesystem path but
/// still keep the target alive, so they count as external pins.
pub fn parse_root_line(line: &str) -> (r: Option<(String, String)>)
    ensures
        match r {
            Some((root, target)) => root_in(line@) == Some((root@, target@)),
            None => root_in(line@) is None,
        },
{
    let x = text::to_chars(line);
    let arrow = text::to_chars(" -> ");
    proof {
        reveal_strlit(" -> ");
        text::lemma_rfind_from(line@, " -> "@, x.len() as int);
    }
    let n: usize = x.len();
    // An occurrence that begins at the very end would have to be empty.
    if n == 0 {
        assert(!text::occurs_at(line@, " -> "@, 0));
        return None;
    }
    assert(!text::occurs_at(line@, " -> "@, n as int));
    let k = match text::rposition_from(&x, &arrow, n - 1) {
        Some(k) => k,
        None => {
            return None;
        },
    };
    let left = text::slice_text(&x, 0, k);
    let right = text::slice_text(&x, k + arrow.len(), n);
    assert(left@ == line@.take(k as int));
    assert(right@ == line@.skip(k + " -> "@.len()));
    let target = text::trimmed(right.as_str());
    if !text::begins_with(target.as_str(), "/nix/store/") {
        return None;
    }
    let root = text::trimmed(left.as_str());
    Some((text::stripped(root.as_str(), '"'), target))
}

/// The project a direnv flake-input root belongs to, if it is one.
pub open spec fn project_in(root: Seq<char>) -> Option<Seq<char>> {
    match text::find_from(root, "/.direnv/"@, 0) {
        Some(k) => if text::has(root.skip(k + "/.direnv/"@.len()), "flake-inputs/"@) {
            Some(root.take(k))
        } else {
            None
        },
        None => None,
    }
}

/// The project a direnv flake-input root belongs to, if it is one.
pub fn direnv_project(root: &str) -> (r: Option<String>)
    ensures
        text::view_of(r) == project_in(root@),
{
    let x = text::to_chars(root);
    let mark = text::to_chars("/.direnv/");
    match text::position_from(&x, &mark, 0) {
        Some(k) => {
            assert(k + mark.len() <= x.len());
            let rest = text::slice_text(&x, k + mark.len(), x.len());
            assert(rest@ == root@.skip(k + "/.direnv/"@.len()));
            if text::contains_text(rest.as_str(), "flake-inputs/") {
                let project = text::slice_text(&x, 0, k);
                assert(project@ == root@.take(k as int));
                Some(project)
            } else {
                None
            }
        },
        None => None,
    }
}

/// What a list of pairs of strings says.
pub open spec fn pair_views(v: Seq<(String, String)>) -> Seq<(Seq<char>, Seq<char>)> {
    v.map_values(|e: (String, String)| (e.0@, e.1@))
}

/// What the lines of a root list say, one after another.
pub open spec fn roots_in(lines: Seq<Seq<char>>) -> Seq<(Seq<char>, Seq<char>)>
    decreases lines.len(),
{
    if lines.len() == 0 {
        Seq::empty()
    } else {
        let head = roots_in(lines.drop_last());
        match root_in(lines.last()) {
            Some(found) => head.push(found),
            None => head,
        }
    }
}

/// Read the output of `nix-store --gc --print-roots`: every root with the store
/// path it holds.
///
/// This must be the root list rather than a walk of `/nix/var/nix/gcroots/auto`:
/// profiles, `result` symlinks and running processes also root store paths, and a
/// scan blind to them reports paths as reclaimable when something else is still
/// holding them.
pub fn parse_roots(stdout: &str) -> (r: Vec<(String, String)>)
    ensures
        pair_views(r@) == roots_in(text::lines(stdout@)),
{
    let lines = text::lines_of(stdout);
    let ghost all = text::texts(lines@);
    let mut r: Vec<(String, String)> = Vec::new();
    let mut i: usize = 0;
    assert(pair_views(r@) == roots_in(all.take(0)));
    while i < lines.len()
        invariant
            i <= lines.len(),
            all == text::texts(lines@),
            pair_views(r@) == roots_in(all.take(i as int)),
        decreases lines.len() - i,
    {
        assert(all.take(i + 1).drop_last() == all.take(i as int));
        let ghost done = r@;
        if let Some((root, target)) = parse_root_line(lines[i].as_str()) {
            r.push((root, target));
            assert(pair_views(r@) == pair_views(done).push((root@, target@)));
        }
        i += 1;
    }
    assert(all.take(i as int) == all);
    r
}

// ---------------------------------------------------------------------------
// Who holds what
// ---------------------------------------------------------------------------

/// The store paths that are held, in the order they were found.
pub open spec fn held(found: Seq<(String, String)>) -> Seq<Seq<char>> {
    found.map_values(|e: (String, String)| e.1@)
}

/// The projects whose direnv roots hold `path`, in the order they were found.
pub open spec fn projects_holding(found: Seq<(String, String)>, path: Seq<char>) -> Seq<Seq<char>>
    decreases found.len(),
{
    if found.len() == 0 {
        Seq::empty()
    } else {
        let head = projects_holding(found.drop_last(), path);
        match project_in(found.last().0@) {
            Some(project) => if paths::same_path(found.last().1@, path) {
                head.push(project)
            } else {
                head
            },
            None => head,
        }
    }
}

/// The roots outside direnv that hold `path`, in the order they were found.
pub open spec fn others_holding(found: Seq<(String, String)>, path: Seq<char>) -> Seq<Seq<char>>
    decreases found.len(),
{
    if found.len() == 0 {
        Seq::empty()
    } else {
        let head = others_holding(found.drop_last(), path);
        if project_in(found.last().0@) is None && paths::same_path(found.last().1@, path) {
            head.push(found.last().0@)
        } else {
            head
        }
    }
}

/// Whether `rooted` says of `path` who holds it, and that it takes `size` bytes.
pub open spec fn is_rooted(
    rooted: RootedPath,
    found: Seq<(String, String)>,
    path: Seq<char>,
    size: u64,
) -> bool {
    &&& rooted.store_path@ == path
    &&& rooted.retained_by@ == order::added_all(
        Seq::empty(),
        projects_holding(found, path),
        ByPath::rel(),
    )
    &&& rooted.external_roots@ == order::added_all(
        Seq::empty(),
        others_holding(found, path),
        ByText::rel(),
    )
    &&& rooted.size_bytes == size
}

/// Every held store path once, in ascending order: what has to be measured.
pub fn rooted_paths(found: &Vec<(String, String)>) -> (r: PathSet)
    ensures
        r@ == order::added_all(Seq::empty(), held(found@), ByPath::rel()),
        forall|i: int| 0 <= i < found@.len() ==> r.has((#[trigger] found@[i]).1@),
{
    let mut list: Vec<String> = Vec::new();
    let mut i: usize = 0;
    while i < found.len()
        invariant
            i <= found.len(),
            text::texts(list@) == held(found@).take(i as int),
        decreases found.len() - i,
    {
        let ghost done = list@;
        list.push(found[i].1.clone());
        assert(text::texts(list@) == text::texts(done).push(found@[i as int].1@));
        assert(held(found@).take(i + 1) == held(found@).take(i as int).push(found@[i as int].1@));
        i += 1;
    }
    assert(held(found@).take(i as int) == held(found@));
    let r = PathSet::of(list);
    proof {
        ByPath::strict();
        assert forall|i: int| 0 <= i < found@.len() implies r.has((#[trigger] found@[i]).1@) by {
            let x = found@[i].1@;
            assert(held(found@)[i] == x);
            assert(order::alike(held(found@)[i], x, ByPath::rel()));
            assert(order::holds(held(found@), x, ByPath::rel()));
        }
    }
    r
}

/// The projects and the other roots that hold the path at position `k`, given the
/// position of the path each root holds.
fn holders(found: &Vec<(String, String)>, at: &Vec<usize>, k: usize, path: &str) -> (r: (
    PathSet,
    TextSet,
))
    requires
        at.len() == found.len(),
        forall|e: int|
            0 <= e < found.len() ==> (paths::same_path((#[trigger] found@[e]).1@, path@)
                <==> at@[e] == k),
    ensures
        r.0@ == order::added_all(Seq::empty(), projects_holding(found@, path@), ByPath::rel()),
        r.1@ == order::added_all(Seq::empty(), others_holding(found@, path@), ByText::rel()),
{
    let mut retained_by = PathSet::new();
    let mut external_roots = TextSet::new();
    let mut e: usize = 0;
    while e < found.len()
        invariant
            e <= found.len(),
            at.len() == found.len(),
            forall|e: int|
                0 <= e < found.len() ==> (paths::same_path((#[trigger] found@[e]).1@, path@)
                    <==> at@[e] == k),
            retained_by@ == order::added_all(
                Seq::empty(),
                projects_holding(found@.take(e as int), path@),
                ByPath::rel(),
            ),
            external_roots@ == order::added_all(
                Seq::empty(),
                others_holding(found@.take(e as int), path@),
                ByText::rel(),
            ),
        decreases found.len() - e,
    {
        let ghost next = found@.take(e + 1);
        assert(next.drop_last() == found@.take(e as int));
        assert(next.last() == found@[e as int]);
        if at[e] == k {
            match direnv_project(found[e].0.as_str()) {
                Some(project) => {
                    let ghost head = projects_holding(found@.take(e as int), path@);
                    assert(head.push(project@).drop_last() == head);
                    retained_by.insert(project);
                },
                None => {
                    let ghost head = others_holding(found@.take(e as int), path@);
                    assert(head.push(found@[e as int].0@).drop_last() == head);
                    external_roots.insert(found[e].0.clone());
                },
            }
        }
        e += 1;
    }
    assert(found@.take(e as int) == found@);
    (retained_by, external_roots)
}

/// Build the reverse root index: for every held store path, who holds it and how
/// large it is. `found` is every root with the real path it holds, and `sizes`
/// are those of [`rooted_paths`], in order.
///
/// Paths rooted only from outside direnv are kept so the roots view can show what
/// pins them; they still contribute nothing to [`reclaimable`], which filters them
/// out on its own.
#[verifier::rlimit(60)]
pub fn scan_roots(found: &Vec<(String, String)>, sizes: &Vec<u64>) -> (r: PathMap<RootedPath>)
    requires
        sizes.len() == order::added_all(Seq::empty(), held(found@), ByPath::rel()).len(),
    ensures
        r.keys_view() == order::added_all(Seq::empty(), held(found@), ByPath::rel()),
        forall|i: int|
            0 <= i < r.keys_view().len() ==> (r.at(#[trigger] r.keys_view()[i]) matches Some(v)
                && is_rooted(v, found@, r.keys_view()[i], sizes@[i])),
{
    let all = rooted_paths(found);
    let ghost keys = all@;
    let ghost lt = ByPath::rel();
    proof {
        ByPath::strict();
        paths::lemma_path_order();
    }
    // Which of the paths each root holds, so that paths are compared only once.
    let mut at: Vec<usize> = Vec::new();
    let mut e: usize = 0;
    while e < found.len()
        invariant
            e <= found.len(),
            at.len() == e,
            keys == all@,
            lt == ByPath::rel(),
            forall|e: int| 0 <= e < found.len() ==> all.has((#[trigger] found@[e]).1@),
            forall|d: int, j: int|
                0 <= d < e && 0 <= j < keys.len() ==> (order::alike(
                    #[trigger] keys[j],
                    (#[trigger] found@[d]).1@,
                    lt,
                ) <==> j == at@[d]),
        decreases found.len() - e,
    {
        assert(all.has(found@[e as int].1@));
        let k: usize = match all.position(found[e].1.as_str()) {
            Some(k) => k,
            None => 0,
        };
        at.push(k);
        e += 1;
    }
    let mut r: PathMap<RootedPath> = PathMap::new();
    let sorted = all.to_vec();
    let mut i: usize = 0;
    assert(r.keys_view() == keys.take(0));
    while i < sorted.len()
        invariant
            i <= sorted.len(),
            text::texts(sorted@) == keys,
            keys == all@,
            lt == ByPath::rel(),
            order::is_strict_order(lt),
            order::ascending(keys, lt),
            sizes.len() == keys.len(),
            at.len() == found.len(),
            forall|p: Seq<char>, q: Seq<char>|
                paths::same_path(p, q) <==> !#[trigger] paths::path_lt(p, q) && !paths::path_lt(
                    q,
                    p,
                ),
            forall|d: int, j: int|
                0 <= d < found.len() && 0 <= j < keys.len() ==> (order::alike(
                    #[trigger] keys[j],
                    (#[trigger] found@[d]).1@,
                    lt,
                ) <==> j == at@[d]),
            r.keys_view() == keys.take(i as int),
            forall|j: int|
                0 <= j < i ==> (r.at(#[trigger] keys[j]) matches Some(v) && is_rooted(
                    v,
                    found@,
                    keys[j],
                    sizes@[j],
                )),
        decreases sorted.len() - i,
    {
        let path = sorted[i].clone();
        assert(path@ == keys[i as int]);
        assert forall|d: int| 0 <= d < found.len() implies (paths::same_path(
            (#[trigger] found@[d]).1@,
            path@,
        ) <==> at@[d] == i) by {
            assert(order::alike(keys[i as int], found@[d].1@, lt) <==> i == at@[d]);
        }
        let (retained_by, external_roots) = holders(found, &at, i, path.as_str());
        let rooted = RootedPath {
            store_path: path.clone(),
            retained_by,
            external_roots,
            size_bytes: sizes[i],
        };
        let ghost before = r;
        r.insert(path, rooted);
        proof {
            let head = keys.take(i as int);
            if i > 0 {
                assert(head.last() == keys[i - 1]);
                assert(lt(keys[i - 1], keys[i as int]));
            }
            assert(r.keys_view() == head.push(path@));
            assert(keys.take(i + 1) == head.push(path@));
            assert forall|j: int| 0 <= j < i + 1 implies (r.at(#[trigger] keys[j]) matches Some(v)
                && is_rooted(v, found@, keys[j], sizes@[j])) by {
                if j < i {
                    assert(before.at(keys[j]) matches Some(v) && is_rooted(
                        v,
                        found@,
                        keys[j],
                        sizes@[j],
                    ));
                    assert(lt(keys[j], keys[i as int]));
                    assert(!order::alike(path@, keys[j], lt));
                } else {
                    assert(order::alike(path@, keys[i as int], lt));
                }
            }
        }
        i += 1;
    }
    assert(keys.take(i as int) == keys);
    r
}

// ---------------------------------------------------------------------------
// What could be freed
// ---------------------------------------------------------------------------

/// Every project that retains one of `values`, as often as it does.
pub open spec fn retainers(values: Seq<RootedPath>) -> Seq<Seq<char>>
    decreases values.len(),
{
    if values.len() == 0 {
        Seq::empty()
    } else {
        retainers(values.drop_last()) + values.last().retained_by@
    }
}

proof fn lemma_added_all_push(s: Seq<Seq<char>>, xs: Seq<Seq<char>>, x: Seq<char>)
    ensures
        order::added_all(s, xs.push(x), ByPath::rel()) == order::added(
            order::added_all(s, xs, ByPath::rel()),
            x,
            ByPath::rel(),
        ),
{
    assert(xs.push(x).drop_last() == xs);
}

/// The projects that retain one of `values`, each once.
pub open spec fn all_rooted(values: Seq<RootedPath>) -> Seq<Seq<char>> {
    order::added_all(Seq::empty(), retainers(values), ByPath::rel())
}

/// Projects that retain at least one store path via a GC root.
///
/// A project absent from this set holds nothing: converging its lockfile frees no
/// disk space, which is the only reason lockfiles are edited at all.
pub fn rooted_projects(roots: &PathMap<RootedPath>) -> (r: PathSet)
    ensures
        r@ == all_rooted(roots.values_view()),
        forall|x: Seq<char>| #[trigger]
            r.has(x) <==> order::holds(retainers(roots.values_view()), x, ByPath::rel()),
{
    let ghost values = roots.values_view();
    let mut r = PathSet::new();
    let mut i: usize = 0;
    while i < roots.len()
        invariant
            values == roots.values_view(),
            i <= values.len(),
            r@ == order::added_all(Seq::empty(), retainers(values.take(i as int)), ByPath::rel()),
        decreases values.len() - i,
    {
        let projects = &roots.value(i).retained_by;
        let ghost head = retainers(values.take(i as int));
        assert(values.take(i + 1).drop_last() == values.take(i as int));
        let mut k: usize = 0;
        assert(head + projects@.take(0) == head);
        while k < projects.len()
            invariant
                k <= projects@.len(),
                r@ == order::added_all(Seq::empty(), head + projects@.take(k as int), ByPath::rel()),
            decreases projects@.len() - k,
        {
            r.insert(projects.get(k).clone());
            proof {
                lemma_added_all_push(
                    Seq::empty(),
                    head + projects@.take(k as int),
                    projects@[k as int],
                );
                assert((head + projects@.take(k as int)).push(projects@[k as int]) == head
                    + projects@.take(k + 1));
            }
            k += 1;
        }
        assert(projects@.take(k as int) == projects@);
        i += 1;
    }
    proof {
        assert(values.take(i as int) == values);
        ByPath::strict();
        order::lemma_added_all(Seq::empty(), retainers(values), ByPath::rel());
    }
    r
}

proof fn lemma_retainers_hold(values: Seq<RootedPath>, x: Seq<char>)
    ensures
        order::holds(retainers(values), x, ByPath::rel()) <==> exists|i: int|
            0 <= i < values.len() && (#[trigger] values[i]).retained_by.has(x),
    decreases values.len(),
{
    let lt = ByPath::rel();
    if values.len() > 0 {
        let head = values.drop_last();
        let a = retainers(head);
        let b = values.last().retained_by@;
        lemma_retainers_hold(head, x);
        if order::holds(a + b, x, lt) {
            let i = choose|i: int| 0 <= i < (a + b).len() && order::alike(#[trigger] (a + b)[i], x, lt);
            if i < a.len() {
                assert(order::alike(a[i], x, lt));
                let k = choose|k: int| 0 <= k < head.len() && (#[trigger] head[k]).retained_by.has(x);
                assert(values[k] == head[k]);
            } else {
                assert(order::alike(b[i - a.len()], x, lt));
                assert(values[values.len() - 1].retained_by.has(x));
            }
        }
        if exists|i: int| 0 <= i < values.len() && (#[trigger] values[i]).retained_by.has(x) {
            let i = choose|i: int|
                0 <= i < values.len() && (#[trigger] values[i]).retained_by.has(x);
            if i < head.len() {
                assert(head[i].retained_by.has(x));
                let k = choose|k: int| 0 <= k < a.len() && order::alike(#[trigger] a[k], x, lt);
                assert(order::alike((a + b)[k], x, lt));
            } else {
                let k = choose|k: int| 0 <= k < b.len() && order::alike(#[trigger] b[k], x, lt);
                assert(order::alike((a + b)[a.len() + k], x, lt));
            }
        }
    }
}

/// A project counts as rooted just when some store path is retained by it.
pub proof fn law_rooted_projects_are_the_retainers(values: Seq<RootedPath>, project: Seq<char>)
    ensures
        order::holds(retainers(values), project, ByPath::rel()) <==> exists|i: int|
            0 <= i < values.len() && (#[trigger] values[i]).retained_by.has(project),
{
    lemma_retainers_hold(values, project);
}

/// Whether dropping the direnv roots of `projects` frees this path: every project
/// retaining it is among them, there is one, and nothing outside direnv pins it.
pub open spec fn is_freed(rooted: RootedPath, projects: Seq<Seq<char>>) -> bool {
    &&& rooted.external_roots@.len() == 0
    &&& rooted.retained_by@.len() > 0
    &&& forall|x: Seq<char>|
        rooted.retained_by.has(x) ==> #[trigger] order::holds(projects, x, ByPath::rel())
}

/// The bytes that are freed among `values`.
pub open spec fn freed_bytes(values: Seq<RootedPath>, projects: Seq<Seq<char>>) -> nat
    decreases values.len(),
{
    if values.len() == 0 {
        0
    } else {
        freed_bytes(values.drop_last(), projects) + if is_freed(values.last(), projects) {
            values.last().size_bytes as nat
        } else {
            0
        }
    }
}

/// How many of `values` are freed.
pub open spec fn freed_count(values: Seq<RootedPath>, projects: Seq<Seq<char>>) -> nat
    decreases values.len(),
{
    if values.len() == 0 {
        0
    } else {
        freed_count(values.drop_last(), projects) + if is_freed(values.last(), projects) {
            1nat
        } else {
            0
        }
    }
}

/// `n`, or the largest number of bytes that can be told.
pub open spec fn capped(n: nat) -> u64 {
    if n <= u64::MAX {
        n as u64
    } else {
        u64::MAX
    }
}

/// `a` and `b` together, or the largest number of bytes that can be told.
pub fn capped_sum(a: u64, b: u64) -> (r: u64)
    ensures
        r == capped((a + b) as nat),
{
    if b <= u64::MAX - a {
        a + b
    } else {
        u64::MAX
    }
}

/// How many bytes would actually be freed by migrating `projects` off the versions
/// they currently pin, and across how many store paths.
///
/// A rooted path counts only when every project retaining it is in `projects` and
/// nothing outside direnv pins it; otherwise something keeps it alive and nothing
/// is freed.
pub fn reclaimable(roots: &PathMap<RootedPath>, projects: &PathSet) -> (r: (u64, usize))
    ensures
        r.0 == capped(freed_bytes(roots.values_view(), projects@)),
        r.1 == freed_count(roots.values_view(), projects@),
{
    let ghost values = roots.values_view();
    let mut bytes: u64 = 0;
    let mut count: usize = 0;
    let mut i: usize = 0;
    while i < roots.len()
        invariant
            values == roots.values_view(),
            i <= values.len(),
            bytes == capped(freed_bytes(values.take(i as int), projects@)),
            count == freed_count(values.take(i as int), projects@),
            count <= i,
        decreases values.len() - i,
    {
        assert(values.take(i + 1).drop_last() == values.take(i as int));
        let rooted = roots.value(i);
        if !rooted.pinned_elsewhere() && !rooted.retained_by.is_empty()
            && rooted.retained_by.is_subset(projects) {
            assert(is_freed(*rooted, projects@)) by {
                assert forall|x: Seq<char>| rooted.retained_by.has(x) implies #[trigger] order::holds(
                    projects@,
                    x,
                    ByPath::rel(),
                ) by {
                    assert(projects.has(x));
                }
            }
            bytes = capped_sum(bytes, rooted.size_bytes);
            count += 1;
        } else {
            assert(!is_freed(*rooted, projects@)) by {
                if is_freed(*rooted, projects@) {
                    assert forall|x: Seq<char>| rooted.retained_by.has(
                        x,
                    ) implies #[trigger] projects.has(x) by {
                        assert(order::holds(projects@, x, ByPath::rel()));
                    }
                }
            }
        }
        i += 1;
    }
    assert(values.take(i as int) == values);
    (bytes, count)
}

/// A path some project outside `projects` also holds frees nothing, and neither
/// does one that a profile, a `result` symlink or a running process pins.
pub proof fn law_held_paths_are_not_counted(rooted: RootedPath, projects: Seq<Seq<char>>)
    ensures
        (exists|x: Seq<char>|
            rooted.retained_by.has(x) && !#[trigger] order::holds(projects, x, ByPath::rel()))
            ==> !is_freed(rooted, projects),
        rooted.external_roots@.len() > 0 ==> !is_freed(rooted, projects),
        rooted.retained_by@.len() == 0 ==> !is_freed(rooted, projects),
{
}

/// Migrating more projects never frees less.
pub proof fn law_more_projects_free_no_less(
    values: Seq<RootedPath>,
    fewer: Seq<Seq<char>>,
    more: Seq<Seq<char>>,
)
    requires
        forall|x: Seq<char>|
            order::holds(fewer, x, ByPath::rel()) ==> #[trigger] order::holds(
                more,
                x,
                ByPath::rel(),
            ),
    ensures
        freed_bytes(values, fewer) <= freed_bytes(values, more),
        freed_count(values, fewer) <= freed_count(values, more),
    decreases values.len(),
{
    if values.len() > 0 {
        law_more_projects_free_no_less(values.drop_last(), fewer, more);
        if is_freed(values.last(), fewer) {
            assert forall|x: Seq<char>| values.last().retained_by.has(
                x,
            ) implies #[trigger] order::holds(more, x, ByPath::rel()) by {
                assert(order::holds(fewer, x, ByPath::rel()));
            }
        }
    }
}

/// What is freed depends on which projects are listed, not on how.
pub proof fn lemma_freed_same(values: Seq<RootedPath>, a: Seq<Seq<char>>, b: Seq<Seq<char>>)
    requires
        forall|x: Seq<char>| #[trigger]
            order::holds(a, x, ByPath::rel()) <==> order::holds(b, x, ByPath::rel()),
    ensures
        freed_bytes(values, a) == freed_bytes(values, b),
        freed_count(values, a) == freed_count(values, b),
{
    assert forall|x: Seq<char>| order::holds(b, x, ByPath::rel()) implies #[trigger] order::holds(
        a,
        x,
        ByPath::rel(),
    ) by {}
    assert forall|x: Seq<char>| order::holds(a, x, ByPath::rel()) implies #[trigger] order::holds(
        b,
        x,
        ByPath::rel(),
    ) by {
        assert(order::holds(a, x, ByPath::rel()));
    }
    law_more_projects_free_no_less(values, a, b);
    law_more_projects_free_no_less(values, b, a);
}

// ---------------------------------------------------------------------------
// The roots view
// ---------------------------------------------------------------------------

/// One row of the roots view: a store path and everything keeping it alive.
///
/// This is the inverse of `nix-store --gc --print-roots`, which lists roots and
/// leaves you to work out what each one holds. Here the store path is the key and
/// its retainers are the value, so "why is this still on disk" is a lookup rather
/// than a grep.
#[derive(Debug, PartialEq, Eq)]
pub struct RootRow {
    pub store_path: String,
    pub size_bytes: u64,
    /// Projects holding this via `.direnv/flake-inputs`.
    pub projects: Vec<String>,
    /// Durable external roots: profiles, `result` symlinks, channels.
    pub external: Vec<String>,
    /// Running-process roots (`{lsof}`, `{temp:N}`).
    ///
    /// Separated from `external` because they are noise for the question the view
    /// asks: a process holding a path says nothing about whether the path is durably
    /// pinned, and on a dev machine they swamp the list.
    pub process: Vec<String>,
}

/// What a [`RootRow`] says.
#[verifier::ext_equal]
pub struct RootRowView {
    pub store_path: Seq<char>,
    pub size_bytes: u64,
    pub projects: Seq<Seq<char>>,
    pub external: Seq<Seq<char>>,
    pub process: Seq<Seq<char>>,
}

impl View for RootRow {
    type V = RootRowView;

    open spec fn view(&self) -> RootRowView {
        RootRowView {
            store_path: self.store_path@,
            size_bytes: self.size_bytes,
            projects: text::texts(self.projects@),
            external: text::texts(self.external@),
            process: text::texts(self.process@),
        }
    }
}

impl RootRowView {
    /// Whether dropping direnv roots alone could free this path.
    pub open spec fn is_freeable(self) -> bool {
        self.external.len() == 0 && self.process.len() == 0 && self.projects.len() > 0
    }

    /// Whether only a running process stands between this path and reclamation.
    pub open spec fn is_blocked_only_by_process(self) -> bool {
        self.external.len() == 0 && self.process.len() > 0 && self.projects.len() > 0
    }

    /// Whether a running process is the only thing holding this path at all.
    pub open spec fn is_process_only(self) -> bool {
        self.projects.len() == 0 && self.external.len() == 0 && self.process.len() > 0
    }
}

/// No path is two of droppable, blocked only by a process and held by a process alone,
/// and one that anything outside direnv holds is never droppable.
pub proof fn law_a_row_is_of_one_kind(row: RootRowView)
    ensures
        !(row.is_freeable() && row.is_blocked_only_by_process()),
        !(row.is_freeable() && row.is_process_only()),
        !(row.is_blocked_only_by_process() && row.is_process_only()),
        row.external.len() > 0 || row.process.len() > 0 ==> !row.is_freeable(),
{
}

impl RootRow {
    /// Total number of roots holding this path, process roots included.
    pub fn retainer_count(&self) -> (r: usize)
        requires
            self.projects@.len() + self.external@.len() + self.process@.len() <= usize::MAX,
        ensures
            r == self@.projects.len() + self@.external.len() + self@.process.len(),
    {
        self.projects.len() + self.external.len() + self.process.len()
    }

    /// Whether dropping direnv roots alone could free this path.
    ///
    /// A process root blocks this as surely as a profile does — it just stops
    /// blocking when the process exits.
    pub fn freeable(&self) -> (r: bool)
        ensures
            r == self@.is_freeable(),
    {
        self.external.len() == 0 && self.process.len() == 0 && self.projects.len() > 0
    }

    /// Whether only a running process stands between this path and reclamation.
    ///
    /// Worth surfacing separately: unlike a profile, this resolves on its own.
    pub fn blocked_only_by_process(&self) -> (r: bool)
        ensures
            r == self@.is_blocked_only_by_process(),
    {
        self.external.len() == 0 && self.process.len() > 0 && self.projects.len() > 0
    }

    /// Whether a running process is the *only* thing holding this path at all.
    ///
    /// Nothing here touches such a path, and with process roots hidden the row would
    /// render with no retainers listed — an unexplained entry, which is worse than
    /// an absent one.
    pub fn process_only(&self) -> (r: bool)
        ensures
            r == self@.is_process_only(),
    {
        self.projects.len() == 0 && self.external.len() == 0 && self.process.len() > 0
    }
}

impl Clone for RootRow {
    fn clone(&self) -> (r: Self)
        ensures
            r@ == self@,
    {
        RootRow {
            store_path: self.store_path.clone(),
            size_bytes: self.size_bytes,
            projects: text::copy_texts(&self.projects),
            external: text::copy_texts(&self.external),
            process: text::copy_texts(&self.process),
        }
    }
}

/// The row of one rooted store path.
pub open spec fn row_of(rooted: RootedPath) -> RootRowView {
    RootRowView {
        store_path: rooted.store_path@,
        size_bytes: rooted.size_bytes,
        projects: rooted.retained_by@,
        external: roots_of_kind(rooted.external_roots@, false),
        process: roots_of_kind(rooted.external_roots@, true),
    }
}

/// The order of rows: largest first, and by path where the size is the same, so
/// that the list is stable across runs — an unstable one is unusable to navigate
/// with a cursor.
pub open spec fn row_lt() -> spec_fn(RootRowView, RootRowView) -> bool {
    |a: RootRowView, b: RootRowView|
        a.size_bytes > b.size_bytes || (a.size_bytes == b.size_bytes && paths::path_lt(
            a.store_path,
            b.store_path,
        ))
}

/// What a list of rows says.
pub open spec fn row_views(rows: Seq<RootRow>) -> Seq<RootRowView> {
    rows.map_values(|r: RootRow| r@)
}

/// The rows of `values`, in order.
pub open spec fn rows_of(values: Seq<RootedPath>) -> Seq<RootRowView> {
    order::sorted(values.map_values(|v: RootedPath| row_of(v)), row_lt())
}

fn row_before(a: &RootRow, b: &RootRow) -> (r: bool)
    ensures
        r == row_lt()(a@, b@),
{
    a.size_bytes > b.size_bytes || (a.size_bytes == b.size_bytes && paths::path_before(
        a.store_path.as_str(),
        b.store_path.as_str(),
    ))
}

/// Every rooted store path with its retainers, largest first.
///
/// Sorted by size because the view exists to answer "what is taking up space and
/// who is to blame", and that ordering puts the answer on the first screen.
pub fn root_rows(roots: &PathMap<RootedPath>) -> (r: Vec<RootRow>)
    ensures
        row_views(r@) == rows_of(roots.values_view()),
{
    let ghost values = roots.values_view();
    let ghost want = values.map_values(|v: RootedPath| row_of(v));
    let mut rows: Vec<RootRow> = Vec::new();
    let mut i: usize = 0;
    while i < roots.len()
        invariant
            values == roots.values_view(),
            i <= values.len(),
            want == values.map_values(|v: RootedPath| row_of(v)),
            row_views(rows@) == want.take(i as int),
        decreases values.len() - i,
    {
        let rooted = roots.value(i);
        let row = RootRow {
            store_path: rooted.store_path.clone(),
            size_bytes: rooted.size_bytes,
            projects: rooted.retained_by.to_vec(),
            external: rooted.durable_roots(),
            process: rooted.process_roots(),
        };
        let ghost done = rows@;
        rows.push(row);
        assert(row_views(rows@) == row_views(done).push(row@));
        assert(want.take(i + 1) == want.take(i as int).push(want[i as int]));
        i += 1;
    }
    assert(want.take(i as int) == want);
    let ghost lt = |a: RootRow, b: RootRow| row_lt()(a@, b@);
    let ghost view = |r: RootRow| r@;
    proof {
        order::lemma_sorted_map(rows@, view, lt, row_lt());
    }
    order::sort_by(rows, row_before, Ghost(lt))
}

/// The largest paths come first.
pub proof fn law_rows_are_ordered_by_size(values: Seq<RootedPath>, i: int, j: int)
    requires
        0 <= i < j < rows_of(values).len(),
    ensures
        rows_of(values).len() == values.len(),
        rows_of(values)[i].size_bytes >= rows_of(values)[j].size_bytes,
{
    lemma_row_order();
    order::law_sorted(values.map_values(|v: RootedPath| row_of(v)), row_lt());
    assert(!row_lt()(rows_of(values)[j], rows_of(values)[i]));
}

/// A path is droppable just when it would be freed if all projects that hold anything
/// dropped their roots.
pub proof fn law_a_droppable_row_is_freed_by_all_projects(values: Seq<RootedPath>, i: int)
    requires
        0 <= i < values.len(),
    ensures
        row_of(values[i]).is_freeable() <==> is_freed(values[i], all_rooted(values)),
{
    let v = values[i];
    let roots = v.external_roots@;
    let all = retainers(values);
    roots.lemma_filter_len(|r: Seq<char>| is_process(r) == true);
    roots.lemma_filter_len(|r: Seq<char>| is_process(r) == false);
    if roots.len() > 0 {
        let kind = is_process(roots[0]);
        let keep = |r: Seq<char>| is_process(r) == kind;
        roots.lemma_filter_contains(keep, 0);
        assert(roots_of_kind(roots, kind).contains(roots[0]));
    }
    ByPath::strict();
    order::lemma_added_all(Seq::empty(), all, ByPath::rel());
    assert forall|x: Seq<char>| v.retained_by.has(x) implies #[trigger] order::holds(
        all_rooted(values),
        x,
        ByPath::rel(),
    ) by {
        law_rooted_projects_are_the_retainers(values, x);
        assert(values[i].retained_by.has(x));
        assert(order::holds(all, x, ByPath::rel()));
    }
}

proof fn lemma_row_order()
    ensures
        order::is_strict_order(row_lt()),
{
    paths::lemma_path_order();
    let lt = row_lt();
    let by_path = paths::by_path();
    assert forall|a: RootRowView| !#[trigger] lt(a, a) by {
        assert(!by_path(a.store_path, a.store_path));
    }
    assert forall|a: RootRowView, b: RootRowView, c: RootRowView| #[trigger]
        lt(a, b) && #[trigger] lt(b, c) implies lt(a, c) by {
        assert(by_path(a.store_path, b.store_path) && by_path(b.store_path, c.store_path)
            ==> by_path(a.store_path, c.store_path));
    }
    assert forall|a: RootRowView, b: RootRowView, c: RootRowView| #[trigger]
        lt(a, c) implies #[trigger] lt(a, b) || lt(b, c) by {
        assert(by_path(a.store_path, c.store_path) ==> by_path(a.store_path, b.store_path)
            || by_path(b.store_path, c.store_path));
    }
}

// ---------------------------------------------------------------------------
// What holds of the root list and of who holds what
// ---------------------------------------------------------------------------

proof fn lemma_arrow(root: Seq<char>, target: Seq<char>)
    requires
        target.len() > 0,
        target[0] == '/',
        !text::has(target, " -> "@),
    ensures
        text::rfind_from(
            root + " -> "@ + target,
            " -> "@,
            (root + " -> "@ + target).len() as int,
        ) == Some(root.len() as int),
{
    reveal_strlit(" -> ");
    let arrow = " -> "@;
    let line = root + arrow + target;
    text::lemma_rfind_from(line, arrow, line.len() as int);
    assert(line.subrange(root.len() as int, root.len() + 4int) =~= arrow);
    assert(text::occurs_at(line, arrow, root.len() as int));
    assert forall|j: int| root.len() < j <= line.len() implies !text::occurs_at(line, arrow, j) by {
        if text::occurs_at(line, arrow, j) {
            let w = line.subrange(j, j + 4);
            assert(w[0] == line[j] && w[1] == line[j + 1]);
            if j >= root.len() + 4 {
                let i = j - root.len() - 4;
                assert(target.subrange(i, i + 4) =~= w);
                assert(text::occurs_at(target, arrow, i));
            } else if j == root.len() + 3 {
                assert(line[j + 1] == target[0]);
            }
        }
    }
}

proof fn lemma_trimmed(s: Seq<char>)
    requires
        s.len() > 0,
        !text::is_space(s[0]),
        !text::is_space(s.last()),
    ensures
        text::trim(s) == s,
{
}

/// A line of the root list says which root holds which store path, whether the root is
/// quoted or not, and one whose target lies elsewhere says nothing.
pub proof fn law_a_root_line_is_read_back(root: Seq<char>, target: Seq<char>)
    requires
        root.len() > 0,
        root[0] != '"' && root.last() != '"',
        target.len() > 0,
        target[0] == '/',
        !text::is_space(target.last()),
        !text::has(target, " -> "@),
    ensures
        text::begins(target, "/nix/store/"@) ==> root_in(
            seq!['"'] + root + seq!['"'] + " -> "@ + target,
        ) == Some((root, target)),
        text::begins(target, "/nix/store/"@) && !text::is_space(root[0]) && !text::is_space(
            root.last(),
        ) ==> root_in(root + " -> "@ + target) == Some((root, target)),
        !text::begins(target, "/nix/store/"@) ==> root_in(
            seq!['"'] + root + seq!['"'] + " -> "@ + target,
        ) is None,
{
    reveal_strlit(" -> ");
    let quoted = seq!['"'] + root + seq!['"'];
    let line = quoted + " -> "@ + target;
    let plain = root + " -> "@ + target;
    lemma_arrow(quoted, target);
    lemma_arrow(root, target);
    lemma_trimmed(quoted);
    lemma_trimmed(target);
    assert(line.take(quoted.len() as int) =~= quoted);
    assert(line.skip(quoted.len() + 4int) =~= target);
    assert(plain.take(root.len() as int) =~= root);
    assert(plain.skip(root.len() + 4int) =~= target);
    assert(quoted.drop_first() =~= root.push('"'));
    assert(text::strip_front(quoted.drop_first(), '"') == root.push('"'));
    assert(text::strip_front(quoted, '"') == root.push('"'));
    assert(root.push('"').drop_last() =~= root);
    assert(text::strip_back(root, '"') == root);
    assert(text::strip_back(root.push('"'), '"') == root);
    if !text::is_space(root[0]) && !text::is_space(root.last()) {
        lemma_trimmed(root);
    }
}

/// A line without an arrow says nothing.
pub proof fn law_a_line_without_an_arrow_says_nothing(line: Seq<char>)
    requires
        !text::has(line, " -> "@),
    ensures
        root_in(line) is None,
{
    text::lemma_rfind_from(line, " -> "@, line.len() as int);
}

/// A link below `.direnv` that is one of a flake's inputs belongs to the directory that
/// holds `.direnv`; any other link below it, and any other root, belongs to no project.
pub proof fn law_a_direnv_root_belongs_to_its_project(project: Seq<char>, rest: Seq<char>)
    requires
        forall|k: int|
            0 <= k < project.len() ==> !#[trigger] text::occurs_at(
                project + "/.direnv/"@ + rest,
                "/.direnv/"@,
                k,
            ),
    ensures
        text::has(rest, "flake-inputs/"@) ==> project_in(project + "/.direnv/"@ + rest) == Some(
            project,
        ),
        !text::has(rest, "flake-inputs/"@) ==> project_in(project + "/.direnv/"@ + rest) is None,
        !text::has(project, "/.direnv/"@) ==> project_in(project) is None,
{
    reveal_strlit("/.direnv/");
    let mark = "/.direnv/"@;
    let root = project + mark + rest;
    let k = project.len() as int;
    text::lemma_find_from(root, mark, 0);
    assert(root.subrange(k, k + 9) =~= mark);
    assert(text::occurs_at(root, mark, k));
    assert(text::find_from(root, mark, 0) == Some(k));
    assert(root.take(k) =~= project);
    assert(root.skip(k + 9) =~= rest);
    text::lemma_find_from(project, mark, 0);
}

/// What stands in braces is a running process; what is a path is not.
pub proof fn law_processes_stand_in_braces(root: Seq<char>)
    ensures
        is_process(seq!['{'] + root + seq!['}']),
        root.len() == 0 || root[0] != '{' || root.last() != '}' ==> !is_process(root),
{
}

/// Whether the root at `e` holds `path`.
pub open spec fn holds_path(found: Seq<(String, String)>, e: int, path: Seq<char>) -> bool {
    0 <= e < found.len() && paths::same_path(found[e].1@, path)
}

/// Whether `list` spells the path `p`.
pub open spec fn lists(list: Seq<Seq<char>>, p: Seq<char>) -> bool {
    exists|k: int| 0 <= k < list.len() && paths::same_path(#[trigger] list[k], p)
}

pub proof fn lemma_lists(list: Seq<Seq<char>>, p: Seq<char>)
    ensures
        lists(list, p) <==> order::holds(list, p, ByPath::rel()),
{
    paths::lemma_path_order();
    let lt = ByPath::rel();
    assert forall|k: int| 0 <= k < list.len() implies paths::same_path(#[trigger] list[k], p)
        == order::alike(list[k], p, lt) by {
        assert(paths::path_lt(list[k], p) == lt(list[k], p));
        assert(paths::path_lt(p, list[k]) == lt(p, list[k]));
    }
    if lists(list, p) {
        let k = choose|k: int| 0 <= k < list.len() && paths::same_path(#[trigger] list[k], p);
        assert(order::alike(list[k], p, lt));
    }
    if order::holds(list, p, lt) {
        let k = choose|k: int| 0 <= k < list.len() && order::alike(#[trigger] list[k], p, lt);
        assert(paths::same_path(list[k], p));
    }
}

proof fn lemma_projects_holding(found: Seq<(String, String)>, path: Seq<char>, p: Seq<char>)
    ensures
        lists(projects_holding(found, path), p) <==> exists|e: int| #[trigger]
            holds_path(found, e, path) && (project_in(found[e].0@) matches Some(q)
                && paths::same_path(q, p)),
    decreases found.len(),
{
    if found.len() > 0 {
        let head = found.drop_last();
        let n = head.len() as int;
        lemma_projects_holding(head, path, p);
        let a = projects_holding(head, path);
        let b = projects_holding(found, path);
        if lists(b, p) {
            let k = choose|k: int| 0 <= k < b.len() && paths::same_path(#[trigger] b[k], p);
            if k < a.len() {
                assert(a[k] == b[k]);
                assert(lists(a, p));
                let e = choose|e: int| #[trigger]
                    holds_path(head, e, path) && (project_in(head[e].0@) matches Some(q)
                        && paths::same_path(q, p));
                assert(found[e] == head[e]);
                assert(holds_path(found, e, path));
            } else {
                assert(holds_path(found, n, path));
            }
        }
        if exists|e: int| #[trigger]
            holds_path(found, e, path) && (project_in(found[e].0@) matches Some(q)
                && paths::same_path(q, p)) {
            let e = choose|e: int| #[trigger]
                holds_path(found, e, path) && (project_in(found[e].0@) matches Some(q)
                    && paths::same_path(q, p));
            if e < n {
                assert(head[e] == found[e]);
                assert(holds_path(head, e, path));
                let k = choose|k: int| 0 <= k < a.len() && paths::same_path(#[trigger] a[k], p);
                assert(b[k] == a[k]);
            } else {
                assert(b[a.len() as int] == project_in(found[e].0@)->0);
            }
        }
    }
}

proof fn lemma_others_holding(found: Seq<(String, String)>, path: Seq<char>, root: Seq<char>)
    ensures
        others_holding(found, path).contains(root) <==> exists|e: int| #[trigger]
            holds_path(found, e, path) && project_in(found[e].0@) is None && found[e].0@ == root,
    decreases found.len(),
{
    if found.len() > 0 {
        let head = found.drop_last();
        let n = head.len() as int;
        lemma_others_holding(head, path, root);
        let a = others_holding(head, path);
        let b = others_holding(found, path);
        if b.contains(root) {
            let k = choose|k: int| 0 <= k < b.len() && #[trigger] b[k] == root;
            if k < a.len() {
                assert(a[k] == root);
                assert(a.contains(root));
                let e = choose|e: int| #[trigger]
                    holds_path(head, e, path) && project_in(head[e].0@) is None && head[e].0@
                        == root;
                assert(found[e] == head[e]);
                assert(holds_path(found, e, path));
            } else {
                assert(holds_path(found, n, path));
            }
        }
        if exists|e: int| #[trigger]
            holds_path(found, e, path) && project_in(found[e].0@) is None && found[e].0@ == root {
            let e = choose|e: int| #[trigger]
                holds_path(found, e, path) && project_in(found[e].0@) is None && found[e].0@
                    == root;
            if e < n {
                assert(head[e] == found[e]);
                assert(holds_path(head, e, path));
                let k = choose|k: int| 0 <= k < a.len() && #[trigger] a[k] == root;
                assert(b[k] == root);
            } else {
                assert(b[a.len() as int] == root);
            }
        }
    }
}

proof fn lemma_text_members(xs: Seq<Seq<char>>, x: Seq<char>)
    ensures
        order::holds(xs, x, ByText::rel()) <==> xs.contains(x),
{
    paths::lemma_text_order();
    let lt = ByText::rel();
    assert forall|k: int| 0 <= k < xs.len() implies (#[trigger] xs[k] == x) == order::alike(
        xs[k],
        x,
        lt,
    ) by {
        assert(text::chars_lt(xs[k], x) == lt(xs[k], x));
        assert(text::chars_lt(x, xs[k]) == lt(x, xs[k]));
    }
    if order::holds(xs, x, lt) {
        let k = choose|k: int| 0 <= k < xs.len() && order::alike(#[trigger] xs[k], x, lt);
        assert(xs[k] == x);
    }
    if xs.contains(x) {
        let k = choose|k: int| 0 <= k < xs.len() && #[trigger] xs[k] == x;
        assert(order::alike(xs[k], x, lt));
    }
}

/// A store path is retained by the projects whose direnv roots hold it, and held from
/// outside by the roots that are nobody's direnv root: by those and by no others.
pub proof fn law_a_path_is_held_by_its_roots(
    rooted: RootedPath,
    found: Seq<(String, String)>,
    path: Seq<char>,
    size: u64,
    x: Seq<char>,
)
    requires
        is_rooted(rooted, found, path, size),
    ensures
        lists(rooted.retained_by@, x) <==> exists|e: int| #[trigger]
            holds_path(found, e, path) && (project_in(found[e].0@) matches Some(q)
                && paths::same_path(q, x)),
        rooted.external_roots@.contains(x) <==> exists|e: int| #[trigger]
            holds_path(found, e, path) && project_in(found[e].0@) is None && found[e].0@ == x,
{
    ByPath::strict();
    ByText::strict();
    order::lemma_added_all(Seq::empty(), projects_holding(found, path), ByPath::rel());
    order::lemma_added_all(Seq::empty(), others_holding(found, path), ByText::rel());
    assert(order::holds(rooted.retained_by@, x, ByPath::rel()) <==> order::holds(
        projects_holding(found, path),
        x,
        ByPath::rel(),
    ));
    assert(order::holds(rooted.external_roots@, x, ByText::rel()) <==> order::holds(
        others_holding(found, path),
        x,
        ByText::rel(),
    ));
    lemma_lists(rooted.retained_by@, x);
    lemma_lists(projects_holding(found, path), x);
    lemma_projects_holding(found, path, x);
    lemma_text_members(rooted.external_roots@, x);
    lemma_text_members(others_holding(found, path), x);
    lemma_others_holding(found, path, x);
}

/// Dropping the direnv roots of some projects frees a held store path just when every
/// root that holds it is a direnv root of one of them.
pub proof fn law_a_path_is_freed_with_its_last_root(
    rooted: RootedPath,
    found: Seq<(String, String)>,
    path: Seq<char>,
    size: u64,
    projects: Seq<Seq<char>>,
)
    requires
        is_rooted(rooted, found, path, size),
        exists|e: int| #[trigger] holds_path(found, e, path),
    ensures
        is_freed(rooted, projects) <==> forall|e: int| #[trigger]
            holds_path(found, e, path) ==> (project_in(found[e].0@) matches Some(q) && lists(
                projects,
                q,
            )),
{
    let all = forall|e: int| #[trigger]
        holds_path(found, e, path) ==> (project_in(found[e].0@) matches Some(q) && lists(
            projects,
            q,
        ));
    if is_freed(rooted, projects) {
        assert forall|e: int| #[trigger] holds_path(found, e, path) implies (project_in(
            found[e].0@,
        ) matches Some(q) && lists(projects, q)) by {
            match project_in(found[e].0@) {
                Some(q) => {
                    law_a_path_is_held_by_its_roots(rooted, found, path, size, q);
                    assert(paths::same_path(q, q));
                    lemma_lists(rooted.retained_by@, q);
                    assert(rooted.retained_by.has(q));
                    assert(order::holds(projects, q, ByPath::rel()));
                    lemma_lists(projects, q);
                },
                None => {
                    law_a_path_is_held_by_its_roots(rooted, found, path, size, found[e].0@);
                    assert(rooted.external_roots@.contains(found[e].0@));
                },
            }
        }
    }
    if all {
        let e = choose|e: int| #[trigger] holds_path(found, e, path);
        let q = project_in(found[e].0@)->0;
        law_a_path_is_held_by_its_roots(rooted, found, path, size, q);
        assert(paths::same_path(q, q));
        assert(lists(rooted.retained_by@, q));
        if rooted.external_roots@.len() > 0 {
            let x = rooted.external_roots@[0];
            assert(rooted.external_roots@.contains(x));
            law_a_path_is_held_by_its_roots(rooted, found, path, size, x);
        }
        assert forall|x: Seq<char>| rooted.retained_by.has(x) implies #[trigger] order::holds(
            projects,
            x,
            ByPath::rel(),
        ) by {
            lemma_lists(rooted.retained_by@, x);
            law_a_path_is_held_by_its_roots(rooted, found, path, size, x);
            let f = choose|f: int| #[trigger]
                holds_path(found, f, path) && (project_in(found[f].0@) matches Some(q)
                    && paths::same_path(q, x));
            let p = project_in(found[f].0@)->0;
            assert(lists(projects, p));
            let k = choose|k: int|
                0 <= k < projects.len() && paths::same_path(#[trigger] projects[k], p);
            assert(paths::same_path(projects[k], x));
            lemma_lists(projects, x);
        }
    }
}

/// What is freed of two lists is freed of the one and of the other, and of a single path
/// its size or nothing.
pub proof fn law_freed_paths_add_up(
    x: Seq<RootedPath>,
    y: Seq<RootedPath>,
    projects: Seq<Seq<char>>,
)
    ensures
        freed_bytes(x + y, projects) == freed_bytes(x, projects) + freed_bytes(y, projects),
        freed_count(x + y, projects) == freed_count(x, projects) + freed_count(y, projects),
        x.len() == 1 && is_freed(x[0], projects) ==> freed_bytes(x, projects) == x[0].size_bytes
            && freed_count(x, projects) == 1,
        x.len() == 1 && !is_freed(x[0], projects) ==> freed_bytes(x, projects) == 0 && freed_count(
            x,
            projects,
        ) == 0,
    decreases y.len(),
{
    if y.len() == 0 {
        assert(x + y =~= x);
    } else {
        law_freed_paths_add_up(x, y.drop_last(), projects);
        assert((x + y).drop_last() =~= x + y.drop_last());
    }
    if x.len() == 1 {
        assert(x.drop_last().len() == 0);
        assert(freed_bytes(x.drop_last(), projects) == 0);
        assert(freed_count(x.drop_last(), projects) == 0);
    }
}

/// A row tells of one store path its size, its projects and the roots outside, which it
/// sorts into processes and others without losing one.
pub proof fn law_a_row_tells_who_holds_the_path(rooted: RootedPath, x: Seq<char>)
    ensures
        row_of(rooted).store_path == rooted.store_path@,
        row_of(rooted).size_bytes == rooted.size_bytes,
        row_of(rooted).projects == rooted.retained_by@,
        row_of(rooted).external.len() + row_of(rooted).process.len()
            == rooted.external_roots@.len(),
        row_of(rooted).external.contains(x) <==> rooted.external_roots@.contains(x)
            && !is_process(x),
        row_of(rooted).process.contains(x) <==> rooted.external_roots@.contains(x) && is_process(x),
{
    lemma_kinds(rooted.external_roots@, x);
}

proof fn lemma_kinds(roots: Seq<Seq<char>>, x: Seq<char>)
    ensures
        roots_of_kind(roots, false).len() + roots_of_kind(roots, true).len() == roots.len(),
        roots_of_kind(roots, false).contains(x) <==> roots.contains(x) && !is_process(x),
        roots_of_kind(roots, true).contains(x) <==> roots.contains(x) && is_process(x),
    decreases roots.len(),
{
    reveal(Seq::filter);
    broadcast use vstd::seq_lib::group_filter_ensures;

    if roots.len() > 0 {
        lemma_kinds(roots.drop_last(), x);
    }
}

// ---------------------------------------------------------------------------
// Sizes as text
// ---------------------------------------------------------------------------

/// The unit at position `i`.
pub open spec fn unit(i: int) -> Seq<char> {
    if i == 0 {
        "B"@
    } else if i == 1 {
        "KiB"@
    } else if i == 2 {
        "MiB"@
    } else if i == 3 {
        "GiB"@
    } else {
        "TiB"@
    }
}

/// The unit in which `n` bytes are told, as its size and its position: the largest
/// of which there is a whole one.
pub open spec fn unit_for(n: nat, size: nat, i: int) -> (nat, int)
    decreases 4 - i,
{
    if i < 4 && n >= size * 1024 {
        unit_for(n, size * 1024, i + 1)
    } else {
        (size, i)
    }
}

/// A number of bytes as it is shown.
pub open spec fn bytes_text(b: u64) -> Seq<char> {
    let n = numbers::rounded(b as nat);
    let (size, i) = unit_for(n, 1, 0);
    if i == 0 {
        text::dec(b as nat) + " "@ + unit(0)
    } else {
        numbers::one_decimal(n, size) + " "@ + unit(i)
    }
}

fn unit_text(i: usize) -> (r: String)
    ensures
        r@ == unit(i as int),
{
    if i == 0 {
        "B".to_owned()
    } else if i == 1 {
        "KiB".to_owned()
    } else if i == 2 {
        "MiB".to_owned()
    } else if i == 3 {
        "GiB".to_owned()
    } else {
        "TiB".to_owned()
    }
}

/// A number of bytes in the largest unit of which there is a whole one.
pub fn human_bytes(b: u64) -> (r: String)
    ensures
        r@ == bytes_text(b),
{
    let n: u128 = numbers::rounded_to(b as u128);
    let mut size: u128 = 1;
    let mut i: usize = 0;
    while i < 4 && n >= size * 1024
        invariant
            i <= 4,
            i == 0 ==> size == 1,
            i == 1 ==> size == 1024,
            i == 2 ==> size == 0x10_0000,
            i == 3 ==> size == 0x4000_0000,
            i == 4 ==> size == 0x100_0000_0000,
            unit_for(n as nat, size as nat, i as int) == unit_for(n as nat, 1, 0),
        decreases 4 - i,
    {
        size = size * 1024;
        i += 1;
    }
    let u = unit_text(i);
    if i == 0 {
        let digits = text::dec_text(b);
        text::cat3(digits.as_str(), " ", u.as_str())
    } else {
        proof {
            lemma_tenths(n as nat, size as nat, i as int);
        }
        let digits = numbers::one_decimal_text(n, size);
        text::cat3(digits.as_str(), " ", u.as_str())
    }
}

proof fn lemma_tenths(n: nat, size: nat, i: int)
    requires
        n <= 2 * u64::MAX,
        1024 <= size,
    ensures
        n * 10 <= u128::MAX,
        numbers::nearest((n * 10) as nat, size) <= u64::MAX,
{
    let q = (n * 10) / size;
    assert(q * 1024 <= n * 10) by (nonlinear_arith)
        requires
            q == (n * 10) / size,
            size >= 1024,
    ;
}

/// Whether `shown` tells `b` bytes as `t` tenths of the unit of `size` bytes, to the
/// nearest of them.
pub open spec fn told_in(shown: Seq<char>, b: nat, size: nat, name: Seq<char>, t: nat) -> bool {
    &&& shown == text::dec(t / 10).push('.') + text::dec(t % 10) + name
    &&& 2 * (t * size) <= 20 * b + size
    &&& 20 * b <= 2 * (t * size) + size
}

/// A size is told in the largest unit of which there is a whole one, to the nearest tenth
/// of it, and in bytes where there is none.
pub proof fn law_a_size_is_told_in_its_largest_unit(b: u64)
    requires
        b < 0x20_0000_0000_0000,
    ensures
        b < 0x400 ==> bytes_text(b) == text::dec(b as nat) + " B"@,
        0x400 <= b < 0x10_0000 ==> exists|t: nat| #[trigger]
            told_in(bytes_text(b), b as nat, 0x400, " KiB"@, t),
        0x10_0000 <= b < 0x4000_0000 ==> exists|t: nat| #[trigger]
            told_in(bytes_text(b), b as nat, 0x10_0000, " MiB"@, t),
        0x4000_0000 <= b < 0x100_0000_0000 ==> exists|t: nat| #[trigger]
            told_in(bytes_text(b), b as nat, 0x4000_0000, " GiB"@, t),
        0x100_0000_0000 <= b ==> exists|t: nat| #[trigger]
            told_in(bytes_text(b), b as nat, 0x100_0000_0000, " TiB"@, t),
{
    numbers::law_rounding_keeps_the_leading_bits(b as nat);
    reveal_with_fuel(unit_for, 5);
    let (size, i) = unit_for(b as nat, 1, 0);
    let t = numbers::nearest((b * 10) as nat, size);
    assert(size > 0);
    numbers::law_the_nearest_is_off_by_half_at_most((b * 10) as nat, size);
    reveal_strlit(" ");
    reveal_strlit(".");
    reveal_strlit("B");
    reveal_strlit("KiB");
    reveal_strlit("MiB");
    reveal_strlit("GiB");
    reveal_strlit("TiB");
    reveal_strlit(" B");
    reveal_strlit(" KiB");
    reveal_strlit(" MiB");
    reveal_strlit(" GiB");
    reveal_strlit(" TiB");
    assert(bytes_text(b) == if i == 0 {
        text::dec(b as nat) + " "@ + unit(0)
    } else {
        text::dec(t / 10) + "."@ + text::dec(t % 10) + " "@ + unit(i)
    });
    if i == 0 {
        assert(bytes_text(b) =~= text::dec(b as nat) + " B"@);
    } else {
        let name = if i == 1 {
            " KiB"@
        } else if i == 2 {
            " MiB"@
        } else if i == 3 {
            " GiB"@
        } else {
            " TiB"@
        };
        assert(name =~= " "@ + unit(i));
        assert(bytes_text(b) =~= text::dec(t / 10).push('.') + text::dec(t % 10) + name);
        assert(told_in(bytes_text(b), b as nat, size, name, t));
    }
}

} // verus!
