//! Programs to run, and how running them went.
use crate::text;
use vstd::prelude::*;

verus! {

/// A program to run in a directory.
#[derive(Debug, PartialEq, Eq)]
pub struct Invocation {
    pub program: String,
    pub args: Vec<String>,
    pub dir: String,
}

/// How running a program went.
#[derive(Debug, PartialEq, Eq)]
pub enum Ran {
    /// It could not be started.
    NotStarted,
    /// It ran and failed, and this is what it wrote to its error output.
    Failed { stderr: String },
    /// It ran and succeeded.
    Succeeded,
}

/// A list of owned texts made from borrowed ones.
pub fn owned_list(xs: &[&str]) -> (r: Vec<String>)
    ensures
        text::texts(r@) == xs@.map_values(|s: &str| s@),
{
    let mut r: Vec<String> = Vec::new();
    let ghost want = xs@.map_values(|s: &str| s@);
    let mut i: usize = 0;
    while i < xs.len()
        invariant
            i <= xs.len(),
            want == xs@.map_values(|s: &str| s@),
            text::texts(r@) == want.take(i as int),
        decreases xs.len() - i,
    {
        let ghost done = r@;
        r.push(xs[i].to_owned());
        assert(text::texts(r@) == text::texts(done).push(xs@[i as int]@));
        assert(want.take(i + 1) == want.take(i as int).push(want[i as int]));
        i += 1;
    }
    assert(want.take(i as int) == want);
    r
}

} // verus!
