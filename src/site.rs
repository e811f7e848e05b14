//! Where a run reads and writes: the fixed layout of a notes project.
use vstd::prelude::*;
use crate::path::{copy_path, PathModel};

verus! {

/// The directories of one run.
#[derive(Debug)]
pub struct Layout {
    /// Assets copied verbatim: `<root>/static`.
    pub static_dir: Vec<String>,
    /// Notes and other content: `<root>/content`.
    pub content_dir: Vec<String>,
    /// Where the site is written: `./output`.
    pub output_dir: Vec<String>,
    /// Where the assets go: `./output/static`.
    pub output_static_dir: Vec<String>,
}

pub open spec fn static_name() -> Seq<char> {
    seq!['s', 't', 'a', 't', 'i', 'c']
}

pub open spec fn content_name() -> Seq<char> {
    seq!['c', 'o', 'n', 't', 'e', 'n', 't']
}

pub open spec fn output_dir_path() -> PathModel {
    seq![seq!['.'], seq!['o', 'u', 't', 'p', 'u', 't']]
}

/// The project root: the given one, or the current directory.
pub open spec fn root_of(root: Option<Vec<String>>) -> PathModel {
    match root {
        Some(p) => p.deep_view(),
        None => seq![seq!['.']],
    }
}

fn one(s: &str) -> (r: String)
    ensures
        r@ == s@,
{
    String::from_str(s)
}

fn joined(p: &Vec<String>, name: &str) -> (r: Vec<String>)
    ensures
        r.deep_view() == p.deep_view().push(name@),
{
    let mut r = copy_path(p);
    r.push(one(name));
    assert(r.deep_view() =~= p.deep_view().push(name@));
    r
}

/// The layout of a run on the project at `root` (the current directory when
/// none is given).
pub fn site_layout(root: Option<Vec<String>>) -> (r: Layout)
    ensures
        r.static_dir.deep_view() == root_of(root).push(static_name()),
        r.content_dir.deep_view() == root_of(root).push(content_name()),
        r.output_dir.deep_view() == output_dir_path(),
        r.output_static_dir.deep_view() == output_dir_path().push(static_name()),
{
    proof {
        reveal_strlit(".");
        reveal_strlit("output");
        reveal_strlit("static");
        reveal_strlit("content");
        assert("."@ =~= seq!['.']);
        assert("output"@ =~= seq!['o', 'u', 't', 'p', 'u', 't']);
    }
    let base = match root {
        Some(p) => p,
        None => {
            let mut here: Vec<String> = Vec::new();
            here.push(one("."));
            assert(here.deep_view() =~= seq![seq!['.']]);
            here
        },
    };
    let static_dir = joined(&base, "static");
    let content_dir = joined(&base, "content");
    let mut output_dir: Vec<String> = Vec::new();
    output_dir.push(one("."));
    output_dir.push(one("output"));
    assert(output_dir.deep_view() =~= output_dir_path());
    let output_static_dir = joined(&output_dir, "static");
    assert(static_name() =~= "static"@);
    assert(content_name() =~= "content"@);
    Layout { static_dir, content_dir, output_dir, output_static_dir }
}

} // verus!
