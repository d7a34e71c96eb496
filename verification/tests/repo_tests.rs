use nit::repo::find_git_repos_in;
use nit::repo::parse_scan_depth;
use nit::repo::repo_display_name;
use nit::repo::repo_name;
use nit::repo::DirEntry;
use nit::repo::ScanDepth;

#[test]
fn test_repo_name() {
    let path = String::from("/home/user/src/my-repo");
    assert_eq!(repo_name(&path), "my-repo");
}

#[test]
fn test_repo_name_root() {
    let path = String::from("/");
    assert_eq!(repo_name(&path), "unknown");
}

#[test]
fn test_repo_display_name_relative() {
    let root = String::from("/tmp/workspace");
    let repo = String::from("/tmp/workspace/nested/repo");
    assert_eq!(repo_display_name(&repo, &root), "nested/repo");
}

#[test]
fn test_repo_display_name_fallback() {
    let root = String::from("/tmp/workspace");
    let repo = String::from("/other/place/repo");
    assert_eq!(repo_display_name(&repo, &root), "repo");
}

#[test]
fn test_parse_scan_depth() {
    assert_eq!(parse_scan_depth("1").unwrap(), ScanDepth::Depth(1));
    assert_eq!(parse_scan_depth("all").unwrap(), ScanDepth::All);
    assert_eq!(parse_scan_depth("ALL").unwrap(), ScanDepth::All);
    assert!(parse_scan_depth("0").is_err());
    assert!(parse_scan_depth("nope").is_err());
}

#[test]
fn parse_scan_depth_trims_and_accepts_plus_sign() {
    assert_eq!(parse_scan_depth("  2  ").unwrap(), ScanDepth::Depth(2));
    assert_eq!(parse_scan_depth("+5").unwrap(), ScanDepth::Depth(5));
}

#[test]
fn parse_scan_depth_zero_message() {
    let err = parse_scan_depth("0").unwrap_err();
    assert_eq!(err, "scan depth must be a positive integer or \"all\"");
}

#[test]
fn parse_scan_depth_invalid_message_names_the_input() {
    let err = parse_scan_depth("nope").unwrap_err();
    assert_eq!(
        err,
        "invalid scan depth: nope. Use a positive integer or \"all\"."
    );
}

#[test]
fn parse_scan_depth_rejects_numbers_beyond_the_machine() {
    let err = parse_scan_depth("99999999999999999999999999").unwrap_err();
    assert_eq!(
        err,
        "invalid scan depth: 99999999999999999999999999. Use a positive integer or \"all\"."
    );
}

#[test]
fn repo_display_name_of_root_itself_falls_back() {
    let root = String::from("/tmp/workspace");
    assert_eq!(repo_display_name(&root, &root), "workspace");
}

fn plain_dir(name: &str, children: Vec<DirEntry>) -> DirEntry {
    DirEntry {
        name: String::from(name),
        has_git: false,
        children,
    }
}

fn repo_dir(name: &str, children: Vec<DirEntry>) -> DirEntry {
    DirEntry {
        name: String::from(name),
        has_git: true,
        children,
    }
}

fn scan_tree() -> Vec<DirEntry> {
    // The filesystem fixture as data: repo1, repo2 and boundary carry a
    // `.git` entry at the top (for repo2 it is a plain file, which counts);
    // nested/repo3 and nested/deeper/repo4 are deeper repositories;
    // boundary/child is shadowed by its repository parent.
    vec![
        repo_dir("repo1", Vec::new()),
        repo_dir("repo2", Vec::new()),
        plain_dir(
            "nested",
            vec![
                repo_dir("repo3", Vec::new()),
                plain_dir("deeper", vec![repo_dir("repo4", Vec::new())]),
            ],
        ),
        repo_dir("boundary", vec![repo_dir("child", Vec::new())]),
    ]
}

#[test]
fn test_find_git_repos_depth_limits() {
    let root = String::from("/scan");
    let tree = scan_tree();

    let mut depth1 = find_git_repos_in(&root, &tree, ScanDepth::Depth(1));
    let mut expected_depth1 = vec![
        String::from("/scan/boundary"),
        String::from("/scan/repo1"),
        String::from("/scan/repo2"),
    ];
    depth1.sort();
    expected_depth1.sort();
    assert_eq!(depth1, expected_depth1);

    let mut depth2 = find_git_repos_in(&root, &tree, ScanDepth::Depth(2));
    let mut expected_depth2 = vec![
        String::from("/scan/boundary"),
        String::from("/scan/repo1"),
        String::from("/scan/repo2"),
        String::from("/scan/nested/repo3"),
    ];
    depth2.sort();
    expected_depth2.sort();
    assert_eq!(depth2, expected_depth2);

    let mut depth_all = find_git_repos_in(&root, &tree, ScanDepth::All);
    let mut expected_depth_all = vec![
        String::from("/scan/boundary"),
        String::from("/scan/repo1"),
        String::from("/scan/repo2"),
        String::from("/scan/nested/repo3"),
        String::from("/scan/nested/deeper/repo4"),
    ];
    depth_all.sort();
    expected_depth_all.sort();
    assert_eq!(depth_all, expected_depth_all);
}

#[test]
fn find_git_repos_does_not_enter_repositories() {
    let root = String::from("/scan");
    let tree = vec![repo_dir("outer", vec![repo_dir("inner", Vec::new())])];
    let found = find_git_repos_in(&root, &tree, ScanDepth::All);
    assert_eq!(found, vec![String::from("/scan/outer")]);
}

#[test]
fn find_git_repos_in_empty_tree_finds_nothing() {
    let root = String::from("/scan");
    let found = find_git_repos_in(&root, &Vec::new(), ScanDepth::All);
    assert!(found.is_empty());
}

#[test]
fn find_git_repos_returns_sorted_paths() {
    let root = String::from("/scan");
    let tree = vec![
        repo_dir("zeta", Vec::new()),
        repo_dir("alpha", Vec::new()),
        repo_dir("mid", Vec::new()),
    ];
    let found = find_git_repos_in(&root, &tree, ScanDepth::Depth(1));
    assert_eq!(
        found,
        vec![
            String::from("/scan/alpha"),
            String::from("/scan/mid"),
            String::from("/scan/zeta"),
        ]
    );
}
