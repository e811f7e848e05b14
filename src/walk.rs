//! What to do with each entry met while walking a tree: mirror a directory,
//! copy a file, or turn a Markdown file into an HTML page.
//!
//! A walk is modelled as the sequence of the entries it lists, and its
//! outcome as a map from output paths to what lands there.
use vstd::prelude::*;
use crate::path::{copy_path, extension, html_name_has_html_extension, relative_to, html_path, is_markdown_file_name, is_markdown_path, is_under, mirrored, path_is_under, reroot, PathModel};

verus! {

/// What the walk does with one entry.
#[derive(Clone, Copy, Debug, PartialEq, Eq, Structural)]
pub enum StepKind {
    /// Create the directory `to` and its ancestors.
    MakeDir,
    /// Copy the file `from` to `to`, byte for byte.
    CopyFile,
    /// Render the Markdown file `from`; its page goes to `to` with the `html` extension.
    RenderNote,
}

/// One step of a walk: its kind, the entry it was made for, and its destination.
#[derive(Debug)]
pub struct Step {
    pub kind: StepKind,
    pub from: Vec<String>,
    pub to: Vec<String>,
}

/// Why a step could not be planned.
#[derive(Clone, Copy, Debug, PartialEq, Eq, Structural)]
pub enum PlanError {
    /// The entry does not lie under the root being walked.
    OutsideRoot,
}

/// An entry of a tree, or what lands at an output path.
pub enum Entry {
    Dir,
    File(Seq<u8>),
    /// The HTML page rendered from a Markdown file with these bytes.
    Page(Seq<u8>),
}

/// The walk of the content tree turns this entry into a page.
pub open spec fn renders(build: bool, p: PathModel, is_dir: bool) -> bool {
    build && !is_dir && is_markdown_path(p)
}

/// The kind of step taken for an entry at `p`.
pub open spec fn kind_of(build: bool, p: PathModel, is_dir: bool) -> StepKind {
    if is_dir {
        StepKind::MakeDir
    } else if renders(build, p, is_dir) {
        StepKind::RenderNote
    } else {
        StepKind::CopyFile
    }
}

/// Where the step for an entry at `p` writes: the mirrored path, with the
/// `html` extension for a rendered note.
pub open spec fn target_of(build: bool, src: PathModel, dst: PathModel, p: PathModel, is_dir: bool) -> PathModel {
    if renders(build, p, is_dir) {
        html_path(mirrored(src, dst, p))
    } else {
        mirrored(src, dst, p)
    }
}

/// What the step for entry `e` at `p` leaves at its target.
pub open spec fn outcome_of(build: bool, p: PathModel, e: Entry) -> Entry {
    match e {
        Entry::File(b) => if renders(build, p, false) {
            Entry::Page(b)
        } else {
            e
        },
        _ => e,
    }
}

pub open spec fn entry_target(build: bool, src: PathModel, dst: PathModel, e: (PathModel, Entry)) -> PathModel {
    target_of(build, src, dst, e.0, e.1 is Dir)
}

/// The output tree after the steps for `entries`, taken in order, starting
/// from an empty destination. `build` is the content walk; otherwise the
/// tree is copied verbatim.
pub open spec fn walk_outcome(build: bool, src: PathModel, dst: PathModel, entries: Seq<(PathModel, Entry)>) -> Map<PathModel, Entry>
    decreases entries.len(),
{
    if entries.len() == 0 {
        Map::empty()
    } else {
        let e = entries.last();
        walk_outcome(build, src, dst, entries.drop_last()).insert(
            entry_target(build, src, dst, e),
            outcome_of(build, e.0, e.1),
        )
    }
}

/// The step for the entry at `from`, or why there is none.
pub open spec fn planned(build: bool, src: PathModel, dst: PathModel, from: PathModel, is_dir: bool, r: Result<Step, PlanError>) -> bool {
    &&& (r is Ok <==> is_under(src, from))
    &&& (r is Ok ==> {
        let s = r->Ok_0;
        &&& s.kind == kind_of(build, from, is_dir)
        &&& s.from.deep_view() == from
        &&& (if s.kind == StepKind::RenderNote {
            html_path(s.to.deep_view()) == target_of(build, src, dst, from, is_dir)
        } else {
            s.to.deep_view() == target_of(build, src, dst, from, is_dir)
        })
        &&& s.to.deep_view() == mirrored(src, dst, from)
    })
    &&& (r is Err ==> r->Err_0 == PlanError::OutsideRoot)
}

fn plan(build: bool, src: &Vec<String>, dst: &Vec<String>, from: &Vec<String>, is_dir: bool) -> (r: Result<Step, PlanError>)
    ensures
        planned(build, src.deep_view(), dst.deep_view(), from.deep_view(), is_dir, r),
{
    if !path_is_under(src, from) {
        return Err(PlanError::OutsideRoot);
    }
    let to = reroot(src, dst, from);
    let kind = if is_dir {
        StepKind::MakeDir
    } else if build && from.len() > 0 && is_markdown_file_name(&from[from.len() - 1]) {
        StepKind::RenderNote
    } else {
        StepKind::CopyFile
    };
    Ok(Step { kind, from: copy_path(from), to })
}

/// The step that copying the tree at `src` to `dst` takes for the entry at
/// `from`: every directory is mirrored and every file copied.
pub fn copy_step(src: &Vec<String>, dst: &Vec<String>, from: &Vec<String>, is_dir: bool) -> (r: Result<Step, PlanError>)
    ensures
        planned(false, src.deep_view(), dst.deep_view(), from.deep_view(), is_dir, r),
        r is Ok ==> r->Ok_0.kind != StepKind::RenderNote,
{
    plan(false, src, dst, from, is_dir)
}

/// The step that building the content tree at `src` into `dst` takes for
/// the entry at `from`: directories are mirrored, Markdown files rendered,
/// and other files copied.
pub fn build_step(src: &Vec<String>, dst: &Vec<String>, from: &Vec<String>, is_dir: bool) -> (r: Result<Step, PlanError>)
    ensures
        planned(true, src.deep_view(), dst.deep_view(), from.deep_view(), is_dir, r),
{
    plan(true, src, dst, from, is_dir)
}

/// No two entries of the listing write to the same output path.
pub open spec fn targets_distinct(build: bool, src: PathModel, dst: PathModel, entries: Seq<(PathModel, Entry)>) -> bool {
    forall|i: int, j: int|
        0 <= i < j < entries.len() ==> entry_target(build, src, dst, entries[i]) != entry_target(
            build,
            src,
            dst,
            entries[j],
        )
}

/// The listing names every entry of `tree` (keyed by path relative to
/// `src`) once, with its content, and nothing else.
pub open spec fn lists_tree(src: PathModel, tree: Map<PathModel, Entry>, entries: Seq<(PathModel, Entry)>) -> bool {
    &&& forall|i: int|
        0 <= i < entries.len() ==> is_under(src, #[trigger] entries[i].0) && tree.contains_key(
            relative_to(src, entries[i].0),
        ) && tree[relative_to(src, entries[i].0)] == entries[i].1
    &&& forall|q: PathModel| #[trigger]
        tree.contains_key(q) ==> exists|i: int| 0 <= i < entries.len() && entries[i].0 == src + q
    &&& forall|i: int, j: int| 0 <= i < j < entries.len() ==> entries[i].0 != entries[j].0
}

proof fn lemma_outcome_entries(build: bool, src: PathModel, dst: PathModel, entries: Seq<(PathModel, Entry)>)
    requires
        targets_distinct(build, src, dst, entries),
    ensures
        forall|i: int|
            0 <= i < entries.len() ==> {
                let out = walk_outcome(build, src, dst, entries);
                let t = #[trigger] entry_target(build, src, dst, entries[i]);
                out.contains_key(t) && out[t] == outcome_of(build, entries[i].0, entries[i].1)
            },
        forall|d: PathModel| #[trigger]
            walk_outcome(build, src, dst, entries).contains_key(d) ==> exists|i: int|
                0 <= i < entries.len() && entry_target(build, src, dst, entries[i]) == d,
    decreases entries.len(),
{
    if entries.len() > 0 {
        let prev = entries.drop_last();
        lemma_outcome_entries(build, src, dst, prev);
        let n = entries.len() - 1;
        assert forall|i: int| 0 <= i < n implies #[trigger] entries[i] == prev[i] by {}
        assert forall|d: PathModel| #[trigger]
            walk_outcome(build, src, dst, entries).contains_key(d) implies exists|i: int|
                0 <= i < entries.len() && entry_target(build, src, dst, entries[i]) == d by {
            if d != entry_target(build, src, dst, entries[n]) {
                assert(walk_outcome(build, src, dst, prev).contains_key(d));
                let i = choose|i: int| 0 <= i < prev.len() && entry_target(build, src, dst, prev[i]) == d;
                assert(entries[i] == prev[i]);
            }
        }
    }
}

proof fn lemma_under_split(src: PathModel, p: PathModel)
    requires
        is_under(src, p),
    ensures
        p == src + relative_to(src, p),
{
    assert(p =~= src + relative_to(src, p));
}

proof fn lemma_prefix_cancel(dst: PathModel, a: PathModel, b: PathModel)
    ensures
        (dst + a == dst + b) == (a == b),
        relative_to(dst, dst + a) == a,
        is_under(dst, dst + a),
{
    assert((dst + a).subrange(dst.len() as int, (dst + a).len() as int) =~= a);
    assert((dst + a).subrange(0, dst.len() as int) =~= dst);
    if dst + a == dst + b {
        assert((dst + b).subrange(dst.len() as int, (dst + b).len() as int) =~= b);
    }
}

/// Copying a tree to an empty destination reproduces it there: the same
/// relative paths, each a directory where the source has one and a file
/// with the same bytes where it has a file, and nothing else.
pub proof fn copy_reproduces_tree(src: PathModel, dst: PathModel, tree: Map<PathModel, Entry>, entries: Seq<(PathModel, Entry)>)
    requires
        lists_tree(src, tree, entries),
    ensures
        forall|q: PathModel| #[trigger]
            walk_outcome(false, src, dst, entries).contains_key(dst + q) == tree.contains_key(q),
        forall|q: PathModel| #[trigger]
            tree.contains_key(q) ==> walk_outcome(false, src, dst, entries)[dst + q] == tree[q],
        forall|d: PathModel| #[trigger]
            walk_outcome(false, src, dst, entries).contains_key(d) ==> is_under(dst, d),
{
    let out = walk_outcome(false, src, dst, entries);
    assert forall|i: int, j: int| 0 <= i < j < entries.len() implies entry_target(false, src, dst, entries[i])
        != entry_target(false, src, dst, entries[j]) by {
        lemma_under_split(src, entries[i].0);
        lemma_under_split(src, entries[j].0);
        lemma_prefix_cancel(dst, relative_to(src, entries[i].0), relative_to(src, entries[j].0));
    }
    lemma_outcome_entries(false, src, dst, entries);
    assert forall|q: PathModel| #[trigger] out.contains_key(dst + q) == tree.contains_key(q) by {
        if out.contains_key(dst + q) {
            let i = choose|i: int| 0 <= i < entries.len() && entry_target(false, src, dst, entries[i]) == dst + q;
            lemma_prefix_cancel(dst, relative_to(src, entries[i].0), q);
            assert(is_under(src, entries[i].0));
        }
        if tree.contains_key(q) {
            let i = choose|i: int| 0 <= i < entries.len() && entries[i].0 == src + q;
            lemma_prefix_cancel(src, q, q);
            assert(entry_target(false, src, dst, entries[i]) == dst + q);
        }
    }
    assert forall|q: PathModel| #[trigger] tree.contains_key(q) implies out[dst + q] == tree[q] by {
        let i = choose|i: int| 0 <= i < entries.len() && entries[i].0 == src + q;
        lemma_prefix_cancel(src, q, q);
        assert(entry_target(false, src, dst, entries[i]) == dst + q);
        assert(is_under(src, entries[i].0));
    }
    assert forall|d: PathModel| #[trigger] out.contains_key(d) implies is_under(dst, d) by {
        let i = choose|i: int| 0 <= i < entries.len() && entry_target(false, src, dst, entries[i]) == d;
        lemma_prefix_cancel(dst, relative_to(src, entries[i].0), relative_to(src, entries[i].0));
    }
}

proof fn lemma_no_notes_same_outcome(src: PathModel, dst: PathModel, entries: Seq<(PathModel, Entry)>)
    requires
        forall|i: int| 0 <= i < entries.len() ==> !(#[trigger] entries[i].1 is Dir) ==> !is_markdown_path(entries[i].0),
    ensures
        walk_outcome(true, src, dst, entries) == walk_outcome(false, src, dst, entries),
    decreases entries.len(),
{
    if entries.len() > 0 {
        let prev = entries.drop_last();
        assert forall|i: int| 0 <= i < prev.len() && !(#[trigger] prev[i].1 is Dir) implies !is_markdown_path(prev[i].0) by {
            assert(prev[i] == entries[i]);
        }
        lemma_no_notes_same_outcome(src, dst, prev);
        let e = entries.last();
        assert(entries[entries.len() - 1] == e);
    }
}

/// The content walk of a tree without Markdown files mirrors it exactly,
/// as copying it would: same relative paths, same directories, same bytes.
pub proof fn content_without_notes_is_mirrored(src: PathModel, dst: PathModel, tree: Map<PathModel, Entry>, entries: Seq<(PathModel, Entry)>)
    requires
        lists_tree(src, tree, entries),
        forall|i: int| 0 <= i < entries.len() ==> !(#[trigger] entries[i].1 is Dir) ==> !is_markdown_path(entries[i].0),
    ensures
        walk_outcome(true, src, dst, entries) == walk_outcome(false, src, dst, entries),
        forall|q: PathModel| #[trigger]
            walk_outcome(true, src, dst, entries).contains_key(dst + q) == tree.contains_key(q),
        forall|q: PathModel| #[trigger]
            tree.contains_key(q) ==> walk_outcome(true, src, dst, entries)[dst + q] == tree[q],
        forall|d: PathModel| #[trigger]
            walk_outcome(true, src, dst, entries).contains_key(d) ==> is_under(dst, d),
{
    lemma_no_notes_same_outcome(src, dst, entries);
    copy_reproduces_tree(src, dst, tree, entries);
}

/// The page for a Markdown file lies at the file's path relative to the
/// content root, re-rooted at the output root, with the extension `html`.
pub proof fn page_mirrors_note_path(src: PathModel, dst: PathModel, p: PathModel)
    requires
        is_under(src, p),
        p.len() > src.len(),
        is_markdown_path(p),
    ensures
        target_of(true, src, dst, p, false) == dst + html_path(relative_to(src, p)),
        target_of(true, src, dst, p, false).drop_last() == mirrored(src, dst, p).drop_last(),
        extension(target_of(true, src, dst, p, false).last()) == Some(seq!['h', 't', 'm', 'l']),
{
    let rel = relative_to(src, p);
    let m = mirrored(src, dst, p);
    assert(m.last() == p.last());
    assert(rel.last() == p.last());
    assert(m.drop_last() =~= dst + rel.drop_last());
    assert(html_path(m) =~= dst + html_path(rel));
    html_name_has_html_extension(p.last());
}

/// A walk's outcome depends only on which entries it lists, not on the
/// order in which it meets them, as long as no two entries write to the
/// same output path: regenerating into a cleared output gives the same tree.
pub proof fn walk_is_repeatable(build: bool, src: PathModel, dst: PathModel, first: Seq<(PathModel, Entry)>, second: Seq<(PathModel, Entry)>)
    requires
        first.to_set() == second.to_set(),
        targets_distinct(build, src, dst, first),
        targets_distinct(build, src, dst, second),
    ensures
        walk_outcome(build, src, dst, first) == walk_outcome(build, src, dst, second),
{
    let a = walk_outcome(build, src, dst, first);
    let b = walk_outcome(build, src, dst, second);
    lemma_outcome_entries(build, src, dst, first);
    lemma_outcome_entries(build, src, dst, second);
    assert forall|d: PathModel| a.contains_key(d) implies b.contains_key(d) && a[d] == b[d] by {
        let i = choose|i: int| 0 <= i < first.len() && entry_target(build, src, dst, first[i]) == d;
        assert(first.to_set().contains(first[i]));
        assert(second.to_set().contains(first[i]));
        let j = choose|j: int| 0 <= j < second.len() && second[j] == first[i];
        assert(entry_target(build, src, dst, second[j]) == d);
    }
    assert forall|d: PathModel| b.contains_key(d) implies a.contains_key(d) by {
        let j = choose|j: int| 0 <= j < second.len() && entry_target(build, src, dst, second[j]) == d;
        assert(second.to_set().contains(second[j]));
        assert(first.to_set().contains(second[j]));
        let i = choose|i: int| 0 <= i < first.len() && first[i] == second[j];
        assert(entry_target(build, src, dst, first[i]) == d);
    }
    assert(a =~= b);
}

} // verus!
