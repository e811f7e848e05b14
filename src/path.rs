//! Paths as sequences of components, and the few operations the builder
//! needs on them: re-rooting a path and rewriting a file name's extension.
use vstd::prelude::*;
use vstd::string::*;

verus! {

/// A path, modelled as the sequence of its components.
pub type PathModel = Seq<Seq<char>>;

/// `p` lies under `root`: the components of `root` start `p`.
pub open spec fn is_under(root: PathModel, p: PathModel) -> bool {
    root.len() <= p.len() && p.subrange(0, root.len() as int) == root
}

/// The components of `p` that follow `root`.
pub open spec fn relative_to(root: PathModel, p: PathModel) -> PathModel {
    p.subrange(root.len() as int, p.len() as int)
}

/// `p`, taken relative to `src`, re-rooted at `dst`.
pub open spec fn mirrored(src: PathModel, dst: PathModel, p: PathModel) -> PathModel {
    dst + relative_to(src, p)
}

/// Index of the last `.` in `name`, or -1 when there is none.
pub open spec fn last_dot(name: Seq<char>) -> int
    decreases name.len(),
{
    if name.len() == 0 {
        -1
    } else if name.last() == '.' {
        name.len() - 1
    } else {
        last_dot(name.drop_last())
    }
}

/// `name` has an extension: a `.` after its first character, and the name is not `..`.
pub open spec fn has_extension(name: Seq<char>) -> bool {
    name != seq!['.', '.'] && last_dot(name) > 0
}

/// The extension of a file name: what follows its last `.`.
pub open spec fn extension(name: Seq<char>) -> Option<Seq<char>> {
    if has_extension(name) {
        Some(name.subrange(last_dot(name) + 1, name.len() as int))
    } else {
        None
    }
}

/// The file name without its extension.
pub open spec fn stem(name: Seq<char>) -> Seq<char> {
    if has_extension(name) {
        name.subrange(0, last_dot(name))
    } else {
        name
    }
}

/// The file name with its extension replaced by (or extended with) `html`.
pub open spec fn html_name(name: Seq<char>) -> Seq<char> {
    stem(name) + seq!['.', 'h', 't', 'm', 'l']
}

/// A Markdown file name: its extension is exactly `md`.
pub open spec fn is_markdown_name(name: Seq<char>) -> bool {
    extension(name) == Some(seq!['m', 'd'])
}

/// A path whose last component names a Markdown file.
pub open spec fn is_markdown_path(p: PathModel) -> bool {
    p.len() > 0 && is_markdown_name(p.last())
}

/// The path of the HTML page for `p`: its last component gets the `html` extension.
pub open spec fn html_path(p: PathModel) -> PathModel {
    if p.len() == 0 {
        p
    } else {
        p.drop_last().push(html_name(p.last()))
    }
}

proof fn lemma_last_dot_bounds(name: Seq<char>)
    ensures
        -1 <= last_dot(name) < name.len(),
        last_dot(name) >= 0 ==> name[last_dot(name)] == '.',
        forall|j: int| last_dot(name) < j < name.len() ==> name[j] != '.',
    decreases name.len(),
{
    if name.len() > 0 && name.last() != '.' {
        let d = name.drop_last();
        lemma_last_dot_bounds(d);
        assert forall|j: int| last_dot(name) < j < name.len() implies name[j] != '.' by {
            if j < d.len() {
                assert(name[j] == d[j]);
            }
        }
    }
}

proof fn lemma_last_dot_of_suffix(a: Seq<char>, b: Seq<char>)
    requires
        b.len() > 0,
        b[0] == '.',
        forall|j: int| 0 < j < b.len() ==> b[j] != '.',
    ensures
        last_dot(a + b) == a.len(),
    decreases b.len(),
{
    if b.len() > 1 {
        lemma_last_dot_of_suffix(a, b.drop_last());
        assert((a + b).drop_last() =~= a + b.drop_last());
    } else {
        assert((a + b).last() == '.');
    }
}

/// The name made for an HTML page has the extension `html`, for every
/// non-empty file name.
pub proof fn html_name_has_html_extension(name: Seq<char>)
    requires
        name.len() > 0,
    ensures
        extension(html_name(name)) == Some(seq!['h', 't', 'm', 'l']),
        stem(html_name(name)) == stem(name),
{
    let s = stem(name);
    let suffix = seq!['.', 'h', 't', 'm', 'l'];
    lemma_last_dot_bounds(name);
    assert(s.len() > 0);
    lemma_last_dot_of_suffix(s, suffix);
    let h = html_name(name);
    assert(h != seq!['.', '.']) by {
        assert(h.len() >= 6);
    }
    assert(h.subrange(s.len() as int + 1, h.len() as int) =~= seq!['h', 't', 'm', 'l']);
    assert(h.subrange(0, s.len() as int) =~= s);
}

/// Index of the last `.` in `name`, when there is one.
fn find_last_dot(name: &str) -> (r: Option<usize>)
    ensures
        match r {
            Some(k) => k as int == last_dot(name@),
            None => last_dot(name@) == -1,
        },
{
    let n = name.unicode_len();
    let mut i: usize = n;
    assert(name@.subrange(0, n as int) =~= name@);
    while i > 0
        invariant
            i <= n == name@.len(),
            last_dot(name@) == last_dot(name@.subrange(0, i as int)),
        decreases i,
    {
        let c = name.get_char(i - 1);
        if c == '.' {
            return Some(i - 1);
        }
        assert(name@.subrange(0, i as int).drop_last() =~= name@.subrange(0, i - 1));
        i = i - 1;
    }
    None
}

fn is_dot_dot(name: &str) -> (r: bool)
    ensures
        r == (name@ == seq!['.', '.']),
{
    if name.unicode_len() != 2 {
        return false;
    }
    let ok = name.get_char(0) == '.' && name.get_char(1) == '.';
    if !ok {
        assert(name@[0] != '.' || name@[1] != '.');
    } else {
        assert(name@ =~= seq!['.', '.']);
    }
    ok
}

/// Whether `name` is a Markdown file name: its extension is exactly `md`.
pub fn is_markdown_file_name(name: &str) -> (r: bool)
    ensures
        r == is_markdown_name(name@),
{
    if is_dot_dot(name) {
        return false;
    }
    match find_last_dot(name) {
        None => false,
        Some(k) => {
            if k == 0 {
                return false;
            }
            let n = name.unicode_len();
            proof {
                lemma_last_dot_bounds(name@);
            }
            let ext = name.substring_char(k + 1, n);
            let ok = ext.unicode_len() == 2 && ext.get_char(0) == 'm' && ext.get_char(1) == 'd';
            if ok {
                assert(ext@ =~= seq!['m', 'd']);
            } else {
                assert(ext@ != seq!['m', 'd']);
            }
            ok
        },
    }
}

/// The file name of the HTML page made from the file `name`: its extension,
/// if it has one, is replaced by `html`; otherwise `.html` is appended.
pub fn html_file_name(name: &str) -> (r: String)
    ensures
        r@ == html_name(name@),
{
    let n = name.unicode_len();
    let stem_end: usize = if is_dot_dot(name) {
        n
    } else {
        match find_last_dot(name) {
            Some(k) => if k > 0 { k } else { n },
            None => n,
        }
    };
    proof {
        lemma_last_dot_bounds(name@);
    }
    let stem_part = name.substring_char(0, stem_end);
    assert(stem_part@ =~= stem(name@));
    let r = String::from_str(stem_part).concat(".html");
    proof {
        reveal_strlit(".html");
    }
    assert(r@ =~= html_name(name@));
    r
}

/// A copy of a path, component by component.
pub fn copy_path(p: &Vec<String>) -> (r: Vec<String>)
    ensures
        r.deep_view() == p.deep_view(),
{
    let mut r: Vec<String> = Vec::new();
    let mut i: usize = 0;
    while i < p.len()
        invariant
            i <= p.len(),
            r.deep_view() =~= p.deep_view().subrange(0, i as int),
        decreases p.len() - i,
    {
        let c = p[i].clone();
        let ghost before = r.deep_view();
        r.push(c);
        assert(r.deep_view() =~= before.push(p.deep_view()[i as int]));
        assert(p.deep_view().subrange(0, i + 1) =~= p.deep_view().subrange(0, i as int).push(
            p.deep_view()[i as int],
        ));
        i = i + 1;
    }
    assert(r.deep_view() =~= p.deep_view());
    r
}

/// Whether `p` lies under `root`, component by component.
pub fn path_is_under(root: &Vec<String>, p: &Vec<String>) -> (r: bool)
    ensures
        r == is_under(root.deep_view(), p.deep_view()),
{
    if root.len() > p.len() {
        return false;
    }
    let mut i: usize = 0;
    while i < root.len()
        invariant
            root.len() <= p.len(),
            i <= root.len(),
            p.deep_view().subrange(0, i as int) =~= root.deep_view().subrange(0, i as int),
        decreases root.len() - i,
    {
        if root[i] != p[i] {
            assert(p.deep_view().subrange(0, root.len() as int)[i as int] != root.deep_view()[i as int]);
            return false;
        }
        i = i + 1;
    }
    assert(p.deep_view().subrange(0, root.len() as int) =~= root.deep_view());
    true
}

/// `p` re-rooted: the components of `p` after `root`, appended to `dst`.
pub fn reroot(root: &Vec<String>, dst: &Vec<String>, p: &Vec<String>) -> (r: Vec<String>)
    requires
        is_under(root.deep_view(), p.deep_view()),
    ensures
        r.deep_view() == mirrored(root.deep_view(), dst.deep_view(), p.deep_view()),
{
    let mut r = copy_path(dst);
    let mut i: usize = root.len();
    while i < p.len()
        invariant
            root.len() <= i <= p.len(),
            r.deep_view() =~= dst.deep_view() + p.deep_view().subrange(root.len() as int, i as int),
        decreases p.len() - i,
    {
        let c = p[i].clone();
        let ghost before = r.deep_view();
        r.push(c);
        assert(r.deep_view() =~= before.push(p.deep_view()[i as int]));
        assert(p.deep_view().subrange(root.len() as int, i + 1) =~= p.deep_view().subrange(
            root.len() as int,
            i as int,
        ).push(p.deep_view()[i as int]));
        i = i + 1;
    }
    r
}

/// The path of the HTML page for the file at `p`.
pub fn html_page_path(p: &Vec<String>) -> (r: Vec<String>)
    ensures
        r.deep_view() == html_path(p.deep_view()),
{
    let mut r = copy_path(p);
    if r.len() == 0 {
        return r;
    }
    let last = r.pop().unwrap();
    let page = html_file_name(&last);
    r.push(page);
    assert(r.deep_view() =~= html_path(p.deep_view()));
    r
}

} // verus!
