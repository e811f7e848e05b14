//! Turning one Markdown note into an HTML page, and the registry of the
//! parsed notes of a run.
use vstd::prelude::*;
use vstd::utf8::{decode_utf8, valid_utf8};
use markdown::mdast::Node;
use markdown::message::Message;
use crate::path::{copy_path, html_page_path, html_path, PathModel};

verus! {

#[verifier::external_type_specification]
#[verifier::external_body]
pub struct ExNode(Node);

#[verifier::external_type_specification]
#[verifier::external_body]
pub struct ExMessage(Message);

/// The HTML that markdown renders from a text, front matter recognised.
pub uninterp spec fn rendered_html(text: Seq<char>) -> Seq<char>;

/// Relies on std::str::from_utf8: it accepts exactly the valid UTF-8 byte
/// strings and yields the characters they encode.
#[verifier::external_body]
fn utf8_text(bytes: &[u8]) -> (r: Option<&str>)
    ensures
        r is Some == valid_utf8(bytes@),
        r is Some ==> r->0@ == decode_utf8(bytes@),
{
    std::str::from_utf8(bytes).ok()
}

/// Relies on markdown::to_mdast, with the front matter construct on and MDX
/// off: without MDX it documents that it never fails.
#[verifier::external_body]
fn parse_note(text: &str) -> (r: Result<Node, Message>)
    ensures
        r is Ok,
{
    let constructs = markdown::Constructs { frontmatter: true, ..markdown::Constructs::default() };
    markdown::to_mdast(text, &markdown::ParseOptions { constructs, ..markdown::ParseOptions::default() })
}

/// Relies on markdown::to_html_with_options, with the front matter construct
/// on and MDX off: it never fails, and the page depends on the text alone.
#[verifier::external_body]
fn render_note(text: &str) -> (r: Result<String, Message>)
    ensures
        r is Ok,
        r is Ok ==> r->Ok_0@ == rendered_html(text@),
{
    let constructs = markdown::Constructs { frontmatter: true, ..markdown::Constructs::default() };
    let parse = markdown::ParseOptions { constructs, ..markdown::ParseOptions::default() };
    markdown::to_html_with_options(text, &markdown::Options { parse, ..markdown::Options::default() })
}

/// An HTML page made from a note: where it goes and what it holds.
#[derive(Debug)]
pub struct Note {
    pub path: Vec<String>,
    pub html: String,
}

/// Why a note could not be made. Each names the note's source path.
#[derive(Debug)]
pub enum NoteError {
    /// The file is not valid UTF-8 text.
    NotUtf8 { path: Vec<String> },
    /// The Markdown parser rejected the text.
    Markdown { path: Vec<String>, message: Message },
}

/// The notes of a run, by the path of their page, each with its parsed tree.
#[derive(Debug)]
pub struct NoteGenerator {
    notes: Vec<(Vec<String>, Node)>,
}

/// The registry held by a list of (page path, tree) pairs: a later pair
/// stands over an earlier one with the same path.
pub open spec fn registry_of(s: Seq<(Vec<String>, Node)>) -> Map<PathModel, Node>
    decreases s.len(),
{
    if s.len() == 0 {
        Map::empty()
    } else {
        registry_of(s.drop_last()).insert(s.last().0.deep_view(), s.last().1)
    }
}

impl View for NoteGenerator {
    type V = Map<PathModel, Node>;

    closed spec fn view(&self) -> Map<PathModel, Node> {
        registry_of(self.notes@)
    }
}

impl NoteGenerator {
    /// A generator with no notes yet.
    pub fn new() -> (r: NoteGenerator)
        ensures
            r@ == Map::<PathModel, Node>::empty(),
    {
        NoteGenerator { notes: Vec::new() }
    }

    /// Records the parsed `tree` of the note whose page goes to `target`
    /// with the `html` extension, and returns that page.
    pub fn record_note(&mut self, target: &Vec<String>, tree: Node, html: String) -> (r: Note)
        ensures
            r.path.deep_view() == html_path(target.deep_view()),
            r.html@ == html@,
            final(self)@ == old(self)@.insert(html_path(target.deep_view()), tree),
    {
        let path = html_page_path(target);
        let key = copy_path(&path);
        let ghost before = self.notes@;
        self.notes.push((key, tree));
        assert(self.notes@.drop_last() == before);
        Note { path, html }
    }

    /// Makes the page for the Markdown file `src` with contents `src_bytes`.
    /// The page goes to `target` with the `html` extension and holds the
    /// rendered text; the parsed tree is recorded under the page's path.
    /// Fails, recording nothing, when the contents are not UTF-8 text.
    pub fn create_note(&mut self, src: &Vec<String>, src_bytes: &[u8], target: &Vec<String>) -> (r: Result<Note, NoteError>)
        ensures
            r is Ok <==> valid_utf8(src_bytes@),
            r is Ok ==> r->Ok_0.path.deep_view() == html_path(target.deep_view())
                && r->Ok_0.html@ == rendered_html(decode_utf8(src_bytes@))
                && final(self)@.dom() == old(self)@.dom().insert(html_path(target.deep_view()))
                && forall|k: PathModel| k != html_path(target.deep_view()) && old(self)@.contains_key(k)
                    ==> final(self)@[k] == old(self)@[k],
            r matches Err(NoteError::NotUtf8 { path }) ==> path.deep_view() == src.deep_view(),
            r is Err ==> (r matches Err(NoteError::NotUtf8 { .. })),
            r is Err ==> final(self)@ == old(self)@,
    {
        let text = match utf8_text(src_bytes) {
            Some(t) => t,
            None => return Err(NoteError::NotUtf8 { path: copy_path(src) }),
        };
        let tree = match parse_note(text) {
            Ok(t) => t,
            Err(message) => return Err(NoteError::Markdown { path: copy_path(src), message }),
        };
        let html = match render_note(text) {
            Ok(h) => h,
            Err(message) => return Err(NoteError::Markdown { path: copy_path(src), message }),
        };
        Ok(self.record_note(target, tree, html))
    }
}

} // verus!
