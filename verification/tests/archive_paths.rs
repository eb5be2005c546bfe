use controller_pack_core::archive_paths::{
    plan_separator_moves, safe_nested_path, ArchiveFile, MoveAction, MoveRun,
};
use std::path::PathBuf;

fn as_path(components: Option<Vec<String>>) -> Option<PathBuf> {
    components.map(|c| c.iter().collect::<PathBuf>())
}

#[test]
fn plain_names_are_left_alone() {
    assert_eq!(as_path(safe_nested_path("LFBB.sct")), None);
    assert_eq!(as_path(safe_nested_path("no-separators-here")), None);
}

#[test]
fn nested_names_split_into_components() {
    assert_eq!(
        as_path(safe_nested_path("LFBB\\ICAO\\LFBB.txt")),
        Some(PathBuf::from("LFBB").join("ICAO").join("LFBB.txt"))
    );
}

#[test]
fn traversal_and_absolute_names_are_refused() {
    assert_eq!(as_path(safe_nested_path("..\\..\\evil.txt")), None);
    assert_eq!(as_path(safe_nested_path("C:\\Windows\\evil.txt")), None);
    assert_eq!(as_path(safe_nested_path("LFBB\\..\\..\\evil.txt")), None);
}

fn strings(v: &[&str]) -> Vec<String> {
    v.iter().map(|s| s.to_string()).collect()
}

#[test]
fn empty_dot_and_blank_segments_are_dropped() {
    assert_eq!(
        safe_nested_path("\\LFBB\\\\.\\ ICAO \\  \\LFBB.txt"),
        Some(strings(&["LFBB", "ICAO", "LFBB.txt"]))
    );
    // Unicode white space is trimmed too.
    assert_eq!(
        safe_nested_path("\u{a0}LFBB\u{3000}\\ICAO"),
        Some(strings(&["LFBB", "ICAO"]))
    );
    assert_eq!(safe_nested_path("LFBB\\.\\ "), None);
    assert_eq!(safe_nested_path(""), None);
    assert_eq!(safe_nested_path("\\"), None);
}

#[test]
fn colon_segments_refuse_the_name() {
    assert_eq!(safe_nested_path("LFBB\\D:\\x.txt"), None);
    assert_eq!(safe_nested_path("LFBB\\x.txt:"), None);
    // A colon inside a segment is an ordinary character.
    assert_eq!(safe_nested_path("LFBB\\a:b.txt"), Some(strings(&["LFBB", "a:b.txt"])));
}

#[test]
fn slashes_inside_segments_follow_path_rules() {
    assert_eq!(safe_nested_path("a/b\\c"), Some(strings(&["a", "b", "c"])));
    assert_eq!(safe_nested_path("a/b"), Some(strings(&["a", "b"])));
    assert_eq!(safe_nested_path("x\\./y"), Some(strings(&["x", "y"])));
    assert_eq!(safe_nested_path("./y\\z"), None);
    assert_eq!(safe_nested_path("x\\/etc\\passwd"), None);
    assert_eq!(safe_nested_path("x\\a/..\\b"), None);
}

fn file(parent: &str, name: &str) -> ArchiveFile {
    ArchiveFile { parent: parent.to_string(), name: name.to_string() }
}

fn run_all(run: &mut MoveRun, existing: &[&str]) -> Vec<(String, String, bool)> {
    let mut done = Vec::new();
    while let Some(dst) = run.next_destination() {
        let exists = existing.contains(&dst.as_str());
        match run.decide(exists) {
            Some(MoveAction::Rename { from, to }) => done.push((from, to, true)),
            Some(MoveAction::KeepExisting { from, to }) => done.push((from, to, false)),
            None => unreachable!(),
        }
    }
    assert!(run.decide(false).is_none());
    done
}

#[test]
fn windows_style_entries_become_real_directories() {
    let files = vec![
        file("/x", "LFBB\\ICAO\\LFBB.txt"),
        file("/x", "LFBB\\Settings\\VoiceChannels.txt"),
        file("/x", "LFBB-Bordeaux-260301-0003.sct"),
    ];
    let moves = plan_separator_moves(&files);
    let mut run = MoveRun::new(moves);
    let done = run_all(&mut run, &[]);
    assert_eq!(run.moved(), 2);
    assert_eq!(
        done,
        vec![
            ("/x/LFBB\\ICAO\\LFBB.txt".to_string(), "/x/LFBB/ICAO/LFBB.txt".to_string(), true),
            (
                "/x/LFBB\\Settings\\VoiceChannels.txt".to_string(),
                "/x/LFBB/Settings/VoiceChannels.txt".to_string(),
                true
            ),
        ]
    );
    // After the moves, a second pass finds nothing to do.
    let after = vec![
        file("/x/LFBB/ICAO", "LFBB.txt"),
        file("/x/LFBB/Settings", "VoiceChannels.txt"),
        file("/x", "LFBB-Bordeaux-260301-0003.sct"),
    ];
    assert!(plan_separator_moves(&after).is_empty());
}

#[test]
fn nested_below_an_already_extracted_folder() {
    let files = vec![file("/tmp/root/package", "LFRR\\NavData\\wpt.txt")];
    let moves = plan_separator_moves(&files);
    assert_eq!(moves.len(), 1);
    assert_eq!(moves[0].from, "/tmp/root/package/LFRR\\NavData\\wpt.txt");
    assert_eq!(moves[0].to, "/tmp/root/package/LFRR/NavData/wpt.txt");
}

#[test]
fn unsafe_entries_are_left_in_place() {
    let files = vec![file("/tmp/root", "..\\escape.txt")];
    assert!(plan_separator_moves(&files).is_empty());
    let mut run = MoveRun::new(plan_separator_moves(&files));
    assert_eq!(run.next_destination(), None);
    assert_eq!(run.moved(), 0);
}

#[test]
fn colliding_destination_keeps_the_first_file() {
    let files = vec![file("/r", "A\\b.txt"), file("/r", "A\\ b.txt"), file("/r/", "C\\d")];
    let mut run = MoveRun::new(plan_separator_moves(&files));
    let done = run_all(&mut run, &["/r/A/b.txt"]);
    assert_eq!(
        done,
        vec![
            ("/r/A\\b.txt".to_string(), "/r/A/b.txt".to_string(), false),
            ("/r/A\\ b.txt".to_string(), "/r/A/b.txt".to_string(), false),
            ("/r/C\\d".to_string(), "/r/C/d".to_string(), true),
        ]
    );
    assert_eq!(run.moved(), 1);
}

#[test]
fn second_pass_plans_only_the_kept_moves() {
    let files = vec![file("/r", "A\\b.txt"), file("/r", "C\\d.txt"), file("/r", "plain.txt")];
    let mut run = MoveRun::new(plan_separator_moves(&files));
    let done = run_all(&mut run, &["/r/A/b.txt"]);
    assert_eq!(done.len(), 2);
    assert_eq!(run.moved(), 1);
    // The tree as it now lies: the kept file, the moved one, the plain one.
    let after = vec![file("/r", "A\\b.txt"), file("/r/C", "d.txt"), file("/r", "plain.txt")];
    let again = plan_separator_moves(&after);
    assert_eq!(again.len(), 1);
    assert_eq!(again[0].to, "/r/A/b.txt");
    // Its destination still exists, so nothing is renamed.
    let mut run = MoveRun::new(again);
    let done = run_all(&mut run, &["/r/A/b.txt", "/r/C/d.txt"]);
    assert_eq!(done, vec![("/r/A\\b.txt".to_string(), "/r/A/b.txt".to_string(), false)]);
    assert_eq!(run.moved(), 0);
}
