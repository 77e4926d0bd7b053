use obsidian_export::mapper::{Assignment, Layout, PathMapper};
use obsidian_export::paths::relative_link;

#[test]
fn hierarchy_mirrors_the_source() {
    let mut mapper = PathMapper::new(Layout::Hierarchy);
    assert_eq!(mapper.map("a/Note.md"), "a/Note.md");
    assert_eq!(mapper.map("b/Note.md"), "b/Note.md");
    assert_eq!(mapper.map("Top.md"), "Top.md");
    assert_eq!(mapper.map("a/b/c/Deep.md"), "a/b/c/Deep.md");
}

#[test]
fn hierarchy_normalizes_the_extension() {
    let mut mapper = PathMapper::new(Layout::Hierarchy);
    assert_eq!(mapper.map("a/Note.MD"), "a/Note.md");
    assert_eq!(mapper.map("Dir.X/Image.PNG"), "Dir.X/Image.png");
    assert_eq!(mapper.map("a/NoExtension"), "a/NoExtension");
    assert_eq!(mapper.map("a/.Hidden"), "a/.Hidden");
    assert_eq!(mapper.map("Dir.X/Plain"), "Dir.X/Plain");
}

#[test]
fn hierarchy_tells_apart_what_normalizes_to_one_path() {
    let mut mapper = PathMapper::new(Layout::Hierarchy);
    assert_eq!(mapper.map("a/Note.md"), "a/Note.md");
    assert_eq!(mapper.map("a/Note.MD"), "a/Note-1.md");
}

#[test]
fn flat_puts_everything_under_the_root() {
    let mut mapper = PathMapper::new(Layout::Flat);
    assert_eq!(mapper.map("a/b/Note.md"), "Note.md");
    assert_eq!(mapper.map("Top.md"), "Top.md");
}

#[test]
fn flat_tells_colliding_names_apart() {
    let mut mapper = PathMapper::new(Layout::Flat);
    let first = mapper.map("a/Note.md");
    let second = mapper.map("b/Note.md");
    let third = mapper.map("c/Note.md");
    assert_eq!(first, "Note.md");
    assert_eq!(second, "Note-1.md");
    assert_eq!(third, "Note-2.md");
}

#[test]
fn flat_skips_a_suffix_that_is_a_real_name() {
    let mut mapper = PathMapper::new(Layout::Flat);
    assert_eq!(mapper.map("x/Note-1.md"), "Note-1.md");
    assert_eq!(mapper.map("a/Note.md"), "Note.md");
    assert_eq!(mapper.map("b/Note.md"), "Note-2.md");
}

#[test]
fn flat_counts_past_nine() {
    let mut mapper = PathMapper::new(Layout::Flat);
    let mut last = String::new();
    for i in 0..=120 {
        last = mapper.map(&format!("d{}/Note.md", i));
        if i == 10 {
            assert_eq!(last, "Note-10.md");
        }
    }
    assert_eq!(last, "Note-120.md");
    assert_eq!(mapper.assigned.len(), 121);
}

#[test]
fn flat_suffix_goes_before_the_extension_only() {
    let mut mapper = PathMapper::new(Layout::Flat);
    assert_eq!(mapper.map("a/archive.tar.gz"), "archive.tar.gz");
    assert_eq!(mapper.map("b/archive.tar.gz"), "archive.tar-1.gz");
    assert_eq!(mapper.map("a/README"), "README");
    assert_eq!(mapper.map("b/README"), "README-1");
}

#[test]
fn a_source_keeps_its_destination() {
    let mut mapper = PathMapper::new(Layout::Flat);
    let first = mapper.map("a/Note.md");
    let second = mapper.map("b/Note.md");
    assert_eq!(mapper.map("a/Note.md"), first);
    assert_eq!(mapper.map("b/Note.md"), second);
    assert_eq!(
        mapper.assigned,
        vec![
            Assignment { source: "a/Note.md".to_string(), destination: "Note.md".to_string() },
            Assignment { source: "b/Note.md".to_string(), destination: "Note-1.md".to_string() },
        ]
    );
    assert_eq!(mapper.position("b/Note.md"), Some(1));
    assert_eq!(mapper.position("c/Note.md"), None);
    assert!(mapper.is_taken("Note-1.md"));
    assert!(!mapper.is_taken("Note-2.md"));
}

#[test]
fn relative_links() {
    assert_eq!(relative_link("a/Note.md", "b/Target.md"), "../b/Target.md");
    assert_eq!(relative_link("Note.md", "Target.md"), "Target.md");
    assert_eq!(relative_link("a/Note.md", "a/Target.md"), "Target.md");
    assert_eq!(relative_link("a/b/c.md", "a/d.md"), "../d.md");
    assert_eq!(relative_link("a/x.md", "a/b/y.md"), "b/y.md");
    assert_eq!(relative_link("a/b/c/x.md", "y.md"), "../../../y.md");
    assert_eq!(relative_link("x.md", "a/b/y.md"), "a/b/y.md");
    assert_eq!(relative_link("a/b/x.md", "a/c/d/y.md"), "../c/d/y.md");
    assert_eq!(relative_link("a/Note.md", "a/Note.md"), "Note.md");
    assert_eq!(relative_link("ab/x.md", "a/y.md"), "../a/y.md");
}
