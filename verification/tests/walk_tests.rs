use chunksum::walk::DirEntry;
use chunksum::walk::Entry;
use chunksum::walk::Line;
use chunksum::walk::walk;
use chunksum::walk::walk_roots;

const SEED_HEX: &str = "e3b0c44298fc1c149afbf4c8996fb92427ae41e4649b934ca495991b7852b855";

fn empty_file() -> Entry {
    Entry::File { content: vec![] }
}

#[test]
fn single_file_gives_one_report() {
    let lines = walk(&String::from("data.bin"), &empty_file());
    assert_eq!(lines.len(), 1);
    match &lines[0] {
        Line::Report { fingerprint, path } => {
            assert_eq!(fingerprint, SEED_HEX);
            assert_eq!(path, "data.bin");
        }
        Line::AccessDenied { .. } => panic!("a file must give a report line"),
    }
}

#[test]
fn empty_file_and_nested_empty_file_give_two_seed_reports() {
    let tree = Entry::Dir {
        entries: vec![
            DirEntry { name: String::from("a.txt"), node: empty_file() },
            DirEntry {
                name: String::from("sub"),
                node: Entry::Dir {
                    entries: vec![DirEntry { name: String::from("b.txt"), node: empty_file() }],
                },
            },
        ],
    };
    let lines = walk(&String::from("root"), &tree);
    assert_eq!(lines.len(), 2);
    let mut paths = Vec::new();
    for line in &lines {
        match line {
            Line::Report { fingerprint, path } => {
                assert_eq!(fingerprint, SEED_HEX);
                paths.push(path.clone());
            }
            Line::AccessDenied { .. } => panic!("no path is denied in this tree"),
        }
    }
    assert!(paths.contains(&String::from("root/a.txt")));
    assert!(paths.contains(&String::from("root/sub/b.txt")));
}

#[test]
fn unresolvable_path_gives_one_access_denied_line() {
    let lines = walk(&String::from("no/such/path"), &Entry::Inaccessible);
    assert_eq!(lines.len(), 1);
    match &lines[0] {
        Line::AccessDenied { path } => assert_eq!(path, "no/such/path"),
        Line::Report { .. } => panic!("an unresolvable path must be denied"),
    }
}

#[test]
fn walk_keeps_entry_order_and_joins_paths() {
    let tree = Entry::Dir {
        entries: vec![
            DirEntry { name: String::from("one"), node: Entry::File { content: vec![9] } },
            DirEntry { name: String::from("gone"), node: Entry::Inaccessible },
            DirEntry { name: String::from("two"), node: empty_file() },
        ],
    };
    let lines = walk(&String::from("top"), &tree);
    assert_eq!(lines.len(), 3);
    assert!(matches!(&lines[0], Line::Report { path, .. } if path == "top/one"));
    assert!(matches!(&lines[1], Line::AccessDenied { path } if path == "top/gone"));
    assert!(matches!(&lines[2], Line::Report { path, .. } if path == "top/two"));
}

#[test]
fn empty_directory_gives_no_lines() {
    let lines = walk(&String::from("empty"), &Entry::Dir { entries: vec![] });
    assert_eq!(lines.len(), 0);
}

#[test]
fn walk_roots_collects_every_argument_in_order() {
    let roots = vec![
        DirEntry { name: String::from("first.bin"), node: empty_file() },
        DirEntry { name: String::from("missing"), node: Entry::Inaccessible },
    ];
    let lines = walk_roots(&roots);
    assert_eq!(lines.len(), 2);
    assert!(matches!(&lines[0], Line::Report { path, .. } if path == "first.bin"));
    assert!(matches!(&lines[1], Line::AccessDenied { path } if path == "missing"));
}

#[test]
fn report_line_renders_fingerprint_tab_path() {
    let line = Line::Report {
        fingerprint: String::from(SEED_HEX),
        path: String::from("dir/file"),
    };
    let expected = format!("{}\t{}", SEED_HEX, "dir/file");
    assert_eq!(line.render(), expected);
}

#[test]
fn denied_line_renders_access_denied_notice() {
    let line = Line::AccessDenied { path: String::from("secret") };
    assert_eq!(line.render(), "secret : Access denied");
}
