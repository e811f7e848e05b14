use notes_builder::note::{NoteError, NoteGenerator};
use notes_builder::path::{
    copy_path, html_file_name, html_page_path, is_markdown_file_name, path_is_under, reroot,
};
use notes_builder::site::site_layout;
use notes_builder::walk::{build_step, copy_step, PlanError, StepKind};

fn p(parts: &[&str]) -> Vec<String> {
    parts.iter().map(|s| s.to_string()).collect()
}

#[test]
fn markdown_note_becomes_heading_page() {
    let src = p(&["content"]);
    let dst = p(&[".", "output"]);
    let from = p(&["content", "a", "note.md"]);
    let step = build_step(&src, &dst, &from, false).unwrap();
    assert_eq!(step.kind, StepKind::RenderNote);
    assert_eq!(step.from, from);
    assert_eq!(step.to, p(&[".", "output", "a", "note.md"]));
    let mut generator = NoteGenerator::new();
    let note = generator.create_note(&step.from, b"# Hi", &step.to).unwrap();
    assert_eq!(note.path, p(&[".", "output", "a", "note.html"]));
    assert!(note.html.contains("<h1>Hi</h1>"));
}

#[test]
fn binary_content_file_is_copied() {
    let step = build_step(&p(&["content"]), &p(&["output"]), &p(&["content", "img.png"]), false).unwrap();
    assert_eq!(step.kind, StepKind::CopyFile);
    assert_eq!(step.from, p(&["content", "img.png"]));
    assert_eq!(step.to, p(&["output", "img.png"]));
}

#[test]
fn static_asset_is_copied_under_output_static() {
    let layout = site_layout(None);
    let from = p(&[".", "static", "css", "style.css"]);
    let step = copy_step(&layout.static_dir, &layout.output_static_dir, &from, false).unwrap();
    assert_eq!(step.kind, StepKind::CopyFile);
    assert_eq!(step.to, p(&[".", "output", "static", "css", "style.css"]));
}

#[test]
fn front_matter_is_recognised() {
    let mut generator = NoteGenerator::new();
    let note = generator
        .create_note(&p(&["content", "x.md"]), b"---\ntitle: X\n---\nBody", &p(&["output", "x.md"]))
        .unwrap();
    assert!(note.html.contains("<p>Body</p>"));
    assert!(!note.html.contains("title"));
    assert_eq!(note.path, p(&["output", "x.html"]));
}

#[test]
fn unreadable_note_names_its_path() {
    let mut generator = NoteGenerator::new();
    let src = p(&["content", "bad.md"]);
    let r = generator.create_note(&src, &[0x23, 0x20, 0xff, 0xfe], &p(&["output", "bad.md"]));
    match r {
        Err(NoteError::NotUtf8 { path }) => assert_eq!(path, src),
        other => panic!("unexpected {:?}", other),
    }
}

#[test]
fn unterminated_markdown_still_renders() {
    let mut generator = NoteGenerator::new();
    let note = generator
        .create_note(&p(&["c", "u.md"]), b"*open [link](", &p(&["o", "u.md"]))
        .unwrap();
    assert!(!note.html.is_empty());
}

#[test]
fn directories_are_mirrored() {
    let step = build_step(&p(&["content"]), &p(&["output"]), &p(&["content", "a", "b"]), true).unwrap();
    assert_eq!(step.kind, StepKind::MakeDir);
    assert_eq!(step.to, p(&["output", "a", "b"]));
    let root = build_step(&p(&["content"]), &p(&["output"]), &p(&["content"]), true).unwrap();
    assert_eq!(root.to, p(&["output"]));
}

#[test]
fn markdown_directory_is_not_rendered() {
    let step = build_step(&p(&["content"]), &p(&["output"]), &p(&["content", "d.md"]), true).unwrap();
    assert_eq!(step.kind, StepKind::MakeDir);
    assert_eq!(step.to, p(&["output", "d.md"]));
}

#[test]
fn copier_never_renders() {
    let step = copy_step(&p(&["s"]), &p(&["o"]), &p(&["s", "readme.md"]), false).unwrap();
    assert_eq!(step.kind, StepKind::CopyFile);
    assert_eq!(step.to, p(&["o", "readme.md"]));
}

#[test]
fn entry_outside_root_is_refused() {
    let r = build_step(&p(&["content"]), &p(&["output"]), &p(&["other", "a.md"]), false);
    assert_eq!(r.unwrap_err(), PlanError::OutsideRoot);
    let r = copy_step(&p(&["a", "b"]), &p(&["o"]), &p(&["a"]), true);
    assert_eq!(r.unwrap_err(), PlanError::OutsideRoot);
}

#[test]
fn extension_match_is_exact() {
    assert!(is_markdown_file_name("note.md"));
    assert!(is_markdown_file_name("a.b.md"));
    assert!(!is_markdown_file_name("note.MD"));
    assert!(!is_markdown_file_name("note.mdx"));
    assert!(!is_markdown_file_name(".md"));
    assert!(!is_markdown_file_name("md"));
    assert!(!is_markdown_file_name(""));
    assert!(!is_markdown_file_name("note.md.txt"));
}

#[test]
fn html_names() {
    assert_eq!(html_file_name("note.md"), "note.html");
    assert_eq!(html_file_name("a.b.md"), "a.b.html");
    assert_eq!(html_file_name("README"), "README.html");
    assert_eq!(html_file_name(".hidden"), ".hidden.html");
    assert_eq!(html_file_name("x."), "x.html");
    assert_eq!(html_page_path(&p(&["o", "n.md"])), p(&["o", "n.html"]));
    assert_eq!(html_page_path(&p(&[])), p(&[]));
}

#[test]
fn path_helpers() {
    assert!(path_is_under(&p(&["a"]), &p(&["a", "b"])));
    assert!(path_is_under(&p(&[]), &p(&["a"])));
    assert!(!path_is_under(&p(&["a", "b"]), &p(&["a", "c"])));
    assert_eq!(reroot(&p(&["a"]), &p(&["x", "y"]), &p(&["a", "b", "c"])), p(&["x", "y", "b", "c"]));
    assert_eq!(copy_path(&p(&["q", "r"])), p(&["q", "r"]));
}

#[test]
fn layout_defaults_to_current_directory() {
    let l = site_layout(None);
    assert_eq!(l.static_dir, p(&[".", "static"]));
    assert_eq!(l.content_dir, p(&[".", "content"]));
    assert_eq!(l.output_dir, p(&[".", "output"]));
    assert_eq!(l.output_static_dir, p(&[".", "output", "static"]));
    let l = site_layout(Some(p(&["site"])));
    assert_eq!(l.static_dir, p(&["site", "static"]));
    assert_eq!(l.content_dir, p(&["site", "content"]));
    assert_eq!(l.output_dir, p(&[".", "output"]));
}

#[test]
fn copy_of_a_tree_keeps_relative_paths() {
    let src = p(&["t"]);
    let dst = p(&["d"]);
    let entries = [
        (p(&["t"]), true),
        (p(&["t", "x"]), true),
        (p(&["t", "x", "f.bin"]), false),
        (p(&["t", "g.md"]), false),
    ];
    let mut targets = Vec::new();
    for (from, is_dir) in entries.iter() {
        let step = copy_step(&src, &dst, from, *is_dir).unwrap();
        let mut rel = from[1..].to_vec();
        let mut expected = dst.clone();
        expected.append(&mut rel);
        assert_eq!(step.to, expected);
        targets.push(step.to);
    }
    targets.sort();
    targets.dedup();
    assert_eq!(targets.len(), entries.len());
}

#[test]
fn content_without_notes_matches_copy() {
    let src = p(&["c"]);
    let dst = p(&["o"]);
    for (from, is_dir) in [(p(&["c", "a.txt"]), false), (p(&["c", "s"]), true), (p(&["c", "s", "i.png"]), false)] {
        let a = build_step(&src, &dst, &from, is_dir).unwrap();
        let b = copy_step(&src, &dst, &from, is_dir).unwrap();
        assert_eq!(a.kind, b.kind);
        assert_eq!(a.to, b.to);
    }
}

#[test]
fn rendering_twice_gives_the_same_page() {
    let mut g1 = NoteGenerator::new();
    let mut g2 = NoteGenerator::new();
    let text = b"# Title\n\nSome *text* and a [link](x.html).";
    let a = g1.create_note(&p(&["c", "n.md"]), text, &p(&["o", "n.md"])).unwrap();
    let b = g2.create_note(&p(&["c", "n.md"]), text, &p(&["o", "n.md"])).unwrap();
    assert_eq!(a.html, b.html);
    assert_eq!(a.path, b.path);
    let again = g1.create_note(&p(&["c", "n.md"]), text, &p(&["o", "n.md"])).unwrap();
    assert_eq!(again.html, a.html);
}
