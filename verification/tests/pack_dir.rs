use controller_pack_core::pack_dir::{
    controller_pack_markers, detect_pack_dir_in, looks_like_controller_pack,
    pack_dir_search_roots, wine_bottle_roots, wine_document_dirs, wine_drive_c,
    wine_prefix_candidates, wine_prefixes, wine_users_dir, ChildDir, DirListing, PathCheck,
    RootScan,
};
use std::path::{Path, PathBuf};

fn strings(v: &[&str]) -> Vec<String> {
    v.iter().map(|s| s.to_string()).collect()
}

#[test]
fn looks_like_controller_pack_requires_lfxx_and_one_area() {
    assert!(!looks_like_controller_pack(&strings(&[])));
    assert!(!looks_like_controller_pack(&strings(&["LFXX"])));
    assert!(looks_like_controller_pack(&strings(&["LFXX", "LFBB"])));
}

#[test]
fn lffm_only_pack_is_recognised() {
    assert!(looks_like_controller_pack(&strings(&["LFXX", "LFFM"])));
}

#[test]
fn an_area_without_lfxx_is_no_pack() {
    assert!(!looks_like_controller_pack(&strings(&["LFBB", "LFEE", "LFFM"])));
    assert!(!looks_like_controller_pack(&strings(&["LFXX", "LFXY", "lfbb"])));
}

#[test]
fn markers_are_lfxx_then_every_area() {
    assert_eq!(
        controller_pack_markers(),
        vec!["LFXX", "LFBB", "LFEE", "LFFF", "LFMM", "LFRR", "LFFM"]
    );
}

#[test]
fn search_roots_always_include_documents_desktop_and_home() {
    let home = Path::new("/fake/home");
    let roots: Vec<PathBuf> =
        pack_dir_search_roots("/fake/home", &vec![]).into_iter().map(PathBuf::from).collect();
    assert!(roots.contains(&home.join("Documents")));
    assert!(roots.contains(&home.join("Desktop")));
    assert!(roots.contains(&home.to_path_buf()));
}

#[test]
fn wine_documents_come_after_the_native_roots() {
    let roots = pack_dir_search_roots("/h/", &strings(&["/w/Documents"]));
    assert_eq!(roots, strings(&["/h/Documents", "/h/Desktop", "/h/", "/w/Documents"]));
}

fn pack(path: &str) -> PathCheck {
    PathCheck { path: path.to_string(), holds: true }
}

fn child(name: &str, is_pack: bool) -> ChildDir {
    ChildDir { name: name.to_string(), is_pack }
}

fn scan(root: &str, root_is_pack: bool, children: Vec<ChildDir>) -> RootScan {
    RootScan { root: root.to_string(), root_is_pack, children }
}

#[test]
fn current_directory_wins_when_it_is_a_pack() {
    let cwd = pack("/tmp/t/cwd");
    let roots = vec![
        scan("/tmp/t/home/Documents", false, vec![child("EuroScope", true)]),
        scan("/tmp/t/home/Desktop", false, vec![]),
        scan("/tmp/t/home", false, vec![child("Documents", false)]),
    ];
    assert_eq!(detect_pack_dir_in(Some(&cwd), Some(&roots)), Some("/tmp/t/cwd".to_string()));
}

#[test]
fn finds_pack_one_level_under_documents() {
    let roots = vec![
        scan("/tmp/t/Documents", false, vec![child("Unrelated", false), child("EuroScope", true)]),
        scan("/tmp/t/Desktop", false, vec![]),
        scan("/tmp/t", false, vec![child("Documents", false)]),
    ];
    assert_eq!(
        detect_pack_dir_in(None, Some(&roots)),
        Some("/tmp/t/Documents/EuroScope".to_string())
    );
}

#[test]
fn returns_none_when_nothing_looks_like_a_pack() {
    let roots = vec![
        scan("/tmp/t/Documents", false, vec![child("Whatever", false)]),
        scan("/tmp/t/Desktop", false, vec![]),
        scan("/tmp/t", false, vec![child("Documents", false)]),
    ];
    assert_eq!(detect_pack_dir_in(None, Some(&roots)), None);
    let not_a_pack = PathCheck { path: "/tmp/cwd".to_string(), holds: false };
    assert_eq!(detect_pack_dir_in(Some(&not_a_pack), None), None);
    assert_eq!(detect_pack_dir_in(None, None), None);
}

#[test]
fn children_are_taken_in_name_order() {
    let roots = vec![scan(
        "/d",
        false,
        vec![child("b", true), child("Z", true), child("a", false), child("ab", true)],
    )];
    assert_eq!(detect_pack_dir_in(None, Some(&roots)), Some("/d/Z".to_string()));
    let roots = vec![scan("/d", false, vec![child("abc", true), child("ab", true)])];
    assert_eq!(detect_pack_dir_in(None, Some(&roots)), Some("/d/ab".to_string()));
}

#[test]
fn a_root_that_is_a_pack_wins_over_its_children_and_later_roots() {
    let roots = vec![
        scan("/a", false, vec![]),
        scan("/b", true, vec![child("x", true)]),
        scan("/c", true, vec![]),
    ];
    assert_eq!(detect_pack_dir_in(None, Some(&roots)), Some("/b".to_string()));
}

#[test]
fn finds_pack_inside_a_crossover_bottle() {
    let home = "/tmp/t";
    let bottle_roots = wine_bottle_roots(home);
    assert_eq!(
        bottle_roots,
        strings(&[
            "/tmp/t/Library/Application Support/CrossOver/Bottles",
            "/tmp/t/Library/Containers/com.isaacmarovitz.Whisky/Bottles",
            "/tmp/t/.local/share/wineprefixes",
        ])
    );
    // Only the CrossOver bottle directory exists, holding one bottle.
    let bottles = vec![DirListing {
        dir: bottle_roots[0].clone(),
        subdirs: strings(&["EuroScope"]),
    }];
    let candidates = wine_prefix_candidates(home, &bottles);
    assert_eq!(
        candidates,
        strings(&[
            "/tmp/t/.wine",
            "/tmp/t/Library/Application Support/CrossOver/Bottles/EuroScope",
        ])
    );
    assert_eq!(
        wine_drive_c(&candidates[1]),
        "/tmp/t/Library/Application Support/CrossOver/Bottles/EuroScope/drive_c"
    );
    let checked = vec![
        PathCheck { path: candidates[0].clone(), holds: false },
        PathCheck { path: candidates[1].clone(), holds: true },
    ];
    let prefixes = wine_prefixes(&checked);
    assert_eq!(prefixes, vec![candidates[1].clone()]);
    let users_dir = wine_users_dir(&prefixes[0]);
    assert_eq!(
        users_dir,
        "/tmp/t/Library/Application Support/CrossOver/Bottles/EuroScope/drive_c/users"
    );
    let users = vec![DirListing { dir: users_dir.clone(), subdirs: strings(&["crossover", "Public"]) }];
    let docs = wine_document_dirs(&users);
    let pack_dir = format!("{}/crossover/Documents", users_dir);
    assert_eq!(docs, vec![pack_dir.clone(), format!("{}/crossover/My Documents", users_dir)]);
    let roots = pack_dir_search_roots(home, &docs);
    let scans: Vec<RootScan> = roots
        .iter()
        .map(|r| {
            if *r == pack_dir {
                scan(r, false, vec![child("CoFrance", true)])
            } else {
                scan(r, false, vec![])
            }
        })
        .collect();
    assert_eq!(detect_pack_dir_in(None, Some(&scans)), Some(format!("{}/CoFrance", pack_dir)));
}

#[test]
fn wine_prefixes_without_drive_c_are_ignored() {
    let home = "/tmp/t";
    let bottles = vec![DirListing {
        dir: wine_bottle_roots(home)[0].clone(),
        subdirs: strings(&["Empty"]),
    }];
    let checked: Vec<PathCheck> = wine_prefix_candidates(home, &bottles)
        .into_iter()
        .map(|path| PathCheck { path, holds: false })
        .collect();
    assert!(wine_prefixes(&checked).is_empty());
}

#[test]
fn public_user_is_skipped_in_any_case() {
    let users = vec![
        DirListing { dir: "/p/drive_c/users".to_string(), subdirs: strings(&["PUBLIC", "me"]) },
        DirListing { dir: "/q/drive_c/users".to_string(), subdirs: strings(&["public"]) },
    ];
    assert_eq!(
        wine_document_dirs(&users),
        strings(&["/p/drive_c/users/me/Documents", "/p/drive_c/users/me/My Documents"])
    );
}
