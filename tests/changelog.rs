use clog::category::{eq_ignore_case, Category};
use clog::engine::{aggregate_document, all_changes, show_document, yank_document};
use clog::error::ChangelogError;
use clog::model::{Change, Changelog, Release};
use clog::parse::parse;
use clog::render::{render, show_release};
use clog::store::FragmentStore;

const DOC: &str = "# Changelog\nAll notable changes.\n\n## [Unreleased]\n\n### Added\n- new thing\n\n## [1.2.0] - 2020-02-01\n\n### Fixed\n- a bug\n\n## [1.1.0] - 2020-01-01 [YANKED]\n\n### Changed\n- stuff\n\n";

fn change(kind: &str, text: &str) -> Change {
    Change::new(kind.as_bytes(), text.as_bytes().to_vec()).unwrap()
}

fn entries(r: &Release, c: Category) -> Vec<String> {
    r.entries[c.position()]
        .iter()
        .map(|d| String::from_utf8(d.clone()).unwrap())
        .collect()
}

#[test]
fn canonical_document_round_trips_byte_for_byte() {
    let log = parse(DOC.as_bytes()).unwrap();
    assert_eq!(log.preamble, b"# Changelog\nAll notable changes.\n\n".to_vec());
    assert_eq!(log.releases.len(), 3);
    assert!(log.releases[0].version.is_none());
    assert_eq!(log.releases[1].version, Some(b"1.2.0".to_vec()));
    assert_eq!(log.releases[1].date, Some(b"2020-02-01".to_vec()));
    assert!(!log.releases[1].yanked);
    assert!(log.releases[2].yanked);
    assert_eq!(entries(&log.releases[0], Category::Added), vec!["new thing"]);
    assert_eq!(entries(&log.releases[1], Category::Fixed), vec!["a bug"]);
    assert_eq!(entries(&log.releases[2], Category::Changed), vec!["stuff"]);
    let text = render(&log);
    assert_eq!(String::from_utf8(text).unwrap(), DOC);
}

#[test]
fn rendering_twice_after_reading_back_is_identical() {
    let messy = "Title\n## [Unreleased]\n### fixed\n-   spaced out   \n\n\n### ADDED\n- one\n- two\n";
    let first = render(&parse(messy.as_bytes()).unwrap());
    let second = render(&parse(&first).unwrap());
    assert_eq!(first, second);
    assert_eq!(
        String::from_utf8(first).unwrap(),
        "Title\n## [Unreleased]\n\n### Added\n- one\n- two\n\n### Fixed\n- spaced out\n\n"
    );
}

#[test]
fn built_release_round_trips_through_text() {
    let rel = Release::build(vec![
        change("security", "patched"),
        change("added", "a"),
        change("Added", "b"),
    ]);
    let log = Changelog { preamble: b"# Log\n".to_vec(), releases: vec![rel] };
    let back = parse(&render(&log)).unwrap();
    assert_eq!(back.preamble, log.preamble);
    assert_eq!(back.releases.len(), 1);
    assert_eq!(back.releases[0].entries, log.releases[0].entries);
    assert_eq!(entries(&back.releases[0], Category::Added), vec!["a", "b"]);
    assert_eq!(entries(&back.releases[0], Category::Security), vec!["patched"]);
}

#[test]
fn empty_categories_get_no_heading() {
    let rel = Release::build(vec![change("fixed", "x")]);
    let log = Changelog { preamble: Vec::new(), releases: vec![rel] };
    let text = String::from_utf8(render(&log)).unwrap();
    assert_eq!(text, "## [Unreleased]\n\n### Fixed\n- x\n\n");
    for name in ["Added", "Changed", "Deprecated", "Removed", "Security"] {
        assert!(!text.contains(&format!("### {}", name)));
    }
}

#[test]
fn empty_release_renders_heading_only() {
    let log = Changelog { preamble: Vec::new(), releases: vec![Release::build(Vec::new())] };
    assert_eq!(String::from_utf8(render(&log)).unwrap(), "## [Unreleased]\n\n");
}

#[test]
fn versions_compare_semantically_not_lexically() {
    let ok = "## [1.10.0] - 2021-01-01\n## [1.9.0] - 2020-01-01\n";
    let log = parse(ok.as_bytes()).unwrap();
    assert_eq!(log.releases.len(), 2);
    let bad = "## [1.9.0] - 2020-01-01\n## [1.10.0] - 2021-01-01\n";
    assert_eq!(parse(bad.as_bytes()).unwrap_err(), ChangelogError::MalformedDocument);
}

#[test]
fn unreleased_must_come_first_and_once() {
    let late = "## [1.0.0] - 2020-01-01\n## [Unreleased]\n";
    assert_eq!(parse(late.as_bytes()).unwrap_err(), ChangelogError::MalformedDocument);
    let twice = "## [Unreleased]\n## [Unreleased]\n";
    assert_eq!(parse(twice.as_bytes()).unwrap_err(), ChangelogError::MalformedDocument);
    let equal = "## [1.0.0] - 2020-01-01\n## [1.0.0] - 2020-01-01\n";
    assert_eq!(parse(equal.as_bytes()).unwrap_err(), ChangelogError::MalformedDocument);
}

#[test]
fn empty_input_is_an_empty_changelog() {
    let log = parse(b"").unwrap();
    assert!(log.preamble.is_empty());
    assert!(log.releases.is_empty());
}

#[test]
fn unknown_category_heading_fails() {
    let doc = "## [Unreleased]\n### Unknown\n- x\n";
    assert_eq!(parse(doc.as_bytes()).unwrap_err(), ChangelogError::UnknownCategory);
}

#[test]
fn entry_before_category_fails() {
    let doc = "## [Unreleased]\n- x\n### Added\n";
    assert_eq!(parse(doc.as_bytes()).unwrap_err(), ChangelogError::UnexpectedEntry);
}

#[test]
fn invalid_version_in_heading_fails() {
    let doc = "## [1.x] - 2020-01-01\n";
    assert_eq!(parse(doc.as_bytes()).unwrap_err(), ChangelogError::InvalidVersion);
}

#[test]
fn unrecognised_structure_fails() {
    for doc in [
        "## Release one\n",
        "## [1.0.0] 2020-01-01\n",
        "## [1.0.0] - yesterday\n",
        "## [Unreleased]\nsome prose\n",
    ] {
        assert_eq!(parse(doc.as_bytes()).unwrap_err(), ChangelogError::MalformedDocument, "{}", doc);
    }
}

#[test]
fn preamble_keeps_anything_before_first_release() {
    let doc = "# T\n- not an entry\n### Not a category\n\n## [Unreleased]\n";
    let log = parse(doc.as_bytes()).unwrap();
    assert_eq!(log.preamble, b"# T\n- not an entry\n### Not a category\n\n".to_vec());
}

#[test]
fn yank_marks_only_that_release() {
    let out = yank_document(DOC.as_bytes(), b"1.2.0").unwrap();
    let before = parse(DOC.as_bytes()).unwrap();
    let after = parse(&out).unwrap();
    assert!(after.releases[1].yanked);
    assert_eq!(after.releases.len(), before.releases.len());
    for i in [0usize, 2] {
        assert_eq!(after.releases[i].version, before.releases[i].version);
        assert_eq!(after.releases[i].date, before.releases[i].date);
        assert_eq!(after.releases[i].yanked, before.releases[i].yanked);
        assert_eq!(after.releases[i].entries, before.releases[i].entries);
    }
    assert_eq!(after.releases[1].entries, before.releases[1].entries);
    assert!(String::from_utf8(out).unwrap().contains("## [1.2.0] - 2020-02-01 [YANKED]\n"));
}

#[test]
fn yank_of_absent_release_fails() {
    assert_eq!(
        yank_document(DOC.as_bytes(), b"9.9.9").unwrap_err(),
        ChangelogError::ReleaseNotFound(b"9.9.9".to_vec())
    );
}

#[test]
fn yank_with_bad_version_text_fails() {
    assert_eq!(yank_document(DOC.as_bytes(), b"one").unwrap_err(), ChangelogError::InvalidVersion);
}

#[test]
fn yank_method_names_missing_release() {
    let mut log = parse(DOC.as_bytes()).unwrap();
    assert_eq!(log.yank(b"2.0.0"), Err(ChangelogError::ReleaseNotFound(b"2.0.0".to_vec())));
    assert!(log.yank(b"1.1.0").is_ok());
    assert!(log.releases[2].yanked);
}

#[test]
fn aggregate_groups_fragments_and_clears_store() {
    let mut store = FragmentStore::new();
    store.append(b"ctxA", change("fixed", "x"));
    store.append(b"ctxB", change("added", "y"));
    let doc = "# Changelog\n\n## [Unreleased]\n\n## [1.0.0] - 2020-01-01\n\n### Added\n- first\n\n";
    let out = aggregate_document(doc.as_bytes(), store.read_all()).unwrap();
    let text = String::from_utf8(out.clone()).unwrap();
    assert_eq!(
        text,
        "# Changelog\n\n## [Unreleased]\n\n### Added\n- y\n\n### Fixed\n- x\n\n## [1.0.0] - 2020-01-01\n\n### Added\n- first\n\n"
    );
    let log = parse(&out).unwrap();
    let unreleased = &log.releases[0];
    assert_eq!(entries(unreleased, Category::Added), vec!["y"]);
    assert_eq!(entries(unreleased, Category::Fixed), vec!["x"]);
    for c in [Category::Changed, Category::Deprecated, Category::Removed, Category::Security] {
        assert!(entries(unreleased, c).is_empty());
    }
    store.clear_all();
    assert!(store.read_all().is_empty());
}

#[test]
fn aggregate_replaces_previous_unreleased_entries() {
    let doc = "## [Unreleased]\n\n### Removed\n- old\n\n";
    let out = aggregate_document(doc.as_bytes(), vec![change("changed", "new")]).unwrap();
    assert_eq!(String::from_utf8(out).unwrap(), "## [Unreleased]\n\n### Changed\n- new\n\n");
}

#[test]
fn aggregate_without_unreleased_fails() {
    let doc = "## [1.0.0] - 2020-01-01\n";
    assert_eq!(
        aggregate_document(doc.as_bytes(), Vec::new()).unwrap_err(),
        ChangelogError::ReleaseNotFound(b"Unreleased".to_vec())
    );
    assert_eq!(
        aggregate_document(b"", Vec::new()).unwrap_err(),
        ChangelogError::ReleaseNotFound(b"Unreleased".to_vec())
    );
}

#[test]
fn aggregate_passes_parse_errors_on() {
    let doc = "## [Unreleased]\n### Nope\n";
    assert_eq!(aggregate_document(doc.as_bytes(), Vec::new()).unwrap_err(), ChangelogError::UnknownCategory);
}

#[test]
fn show_merges_unreleased_then_fragments() {
    let doc = "## [Unreleased]\n\n### Fixed\n- old fix\n\n";
    let frags = vec![change("fixed", "new fix"), change("added", "feature")];
    let out = show_document(doc.as_bytes(), frags, true).unwrap();
    assert_eq!(
        String::from_utf8(out).unwrap(),
        "## [Unreleased]\n\n### Added\n- feature\n\n### Fixed\n- old fix\n- new fix\n"
    );
}

#[test]
fn show_without_headings_drops_release_heading() {
    let out = show_document(b"", vec![change("removed", "gone")], false).unwrap();
    assert_eq!(String::from_utf8(out).unwrap(), "\n### Removed\n- gone\n");
}

#[test]
fn show_of_nothing_is_heading_line() {
    let out = show_document(b"", Vec::new(), true).unwrap();
    assert_eq!(String::from_utf8(out).unwrap(), "## [Unreleased]\n");
    let rel = Release::build(Vec::new());
    assert_eq!(show_release(&rel, false), b"\n".to_vec());
}

#[test]
fn all_changes_puts_unreleased_first() {
    let log = parse(DOC.as_bytes()).unwrap();
    let all = all_changes(&log, vec![change("security", "s")]);
    assert_eq!(all.len(), 2);
    assert_eq!(all[0].category, Category::Added);
    assert_eq!(all[0].description, b"new thing".to_vec());
    assert_eq!(all[1].category, Category::Security);
    assert!(Changelog { preamble: Vec::new(), releases: Vec::new() }.unreleased_changes().is_empty());
}

#[test]
fn change_kinds_ignore_case() {
    assert_eq!(change("ADDED", "x").category, Category::Added);
    assert_eq!(change("deprecated", "x").category, Category::Deprecated);
    assert_eq!(Change::new(b"add", b"x".to_vec()).unwrap_err(), ChangelogError::UnknownCategory);
    assert_eq!(Category::from_text(b"SeCuRiTy"), Some(Category::Security));
    assert_eq!(Category::from_text(b"Secure"), None);
    assert!(eq_ignore_case(b"Removed", b"rEMOVED"));
    assert!(!eq_ignore_case(b"Removed", b"Remove"));
}

#[test]
fn category_names_and_positions() {
    let names: Vec<String> = (0..6)
        .map(|i| String::from_utf8(Category::from_position(i).name()).unwrap())
        .collect();
    assert_eq!(names, vec!["Added", "Changed", "Deprecated", "Removed", "Fixed", "Security"]);
    assert_eq!(Category::Fixed.position(), 4);
}

#[test]
fn build_keeps_order_within_category() {
    let rel = Release::build(vec![change("fixed", "1"), change("added", "2"), change("fixed", "3")]);
    assert!(rel.version.is_none() && rel.date.is_none() && !rel.yanked);
    assert_eq!(entries(&rel, Category::Fixed), vec!["1", "3"]);
    assert_eq!(entries(&rel, Category::Added), vec!["2"]);
}

#[test]
fn store_appends_per_context_and_reads_all() {
    let mut store = FragmentStore::new();
    store.append(b"main", change("added", "a"));
    store.append(b"topic", change("fixed", "b"));
    store.append(b"main", change("removed", "c"));
    let main = store.changes_for(b"main");
    assert_eq!(main.len(), 2);
    assert_eq!(main[1].description, b"c".to_vec());
    assert!(store.changes_for(b"other").is_empty());
    let all: Vec<Vec<u8>> = store.read_all().into_iter().map(|c| c.description).collect();
    assert_eq!(all, vec![b"a".to_vec(), b"c".to_vec(), b"b".to_vec()]);
}

#[test]
fn store_load_replaces_context() {
    let mut store = FragmentStore::new();
    store.load(b"ctx", vec![change("added", "x")]);
    store.load(b"ctx", vec![change("fixed", "y"), change("fixed", "z")]);
    let all = store.read_all();
    assert_eq!(all.len(), 2);
    assert_eq!(all[0].description, b"y".to_vec());
}
