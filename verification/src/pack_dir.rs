//! Recognising a controller-pack install root, and guessing where it lives.
//!
//! EuroScope itself is Windows-only, so on macOS the pack is either a plain
//! folder the user syncs by hand or, far more often, a folder inside a
//! Wine/CrossOver/Whisky bottle's `drive_c`. The detection therefore looks at
//! the usual native locations and at the `Documents` folder of every Windows
//! user inside every bottle it can find.
//!
//! Nothing here touches the disk: each step takes what was read from it
//! (which directories exist, what a directory lists) and decides from that.

use crate::fir::{area_code_chars, AreaCode, FirCode};
use crate::text::{
    eq_ignore_ascii_case, eq_ignore_ascii_case_str, join_path, join_path_str, lemma_lex_order,
    lex_less, lex_lt, opt_view, str_views, views,
};
use vstd::prelude::*;

verus! {

/// The shared folder every controller pack has.
pub open spec fn lfxx_dir_chars() -> Seq<char> {
    seq!['L', 'F', 'X', 'X']
}

/// A directory is a controller pack when it has `LFXX` plus at least one
/// area folder (any area counts, `LFFM` included).
pub open spec fn is_controller_pack(dirs: Seq<Seq<char>>) -> bool {
    &&& dirs.contains(lfxx_dir_chars())
    &&& exists|area: AreaCode| dirs.contains(#[trigger] area_code_chars(area))
}

/// The folder names whose presence decides whether a directory is a
/// controller pack: `LFXX`, then every area code in its stable order.
pub open spec fn pack_marker_chars() -> Seq<Seq<char>> {
    seq![
        lfxx_dir_chars(),
        area_code_chars(AreaCode::Fir(FirCode::LFBB)),
        area_code_chars(AreaCode::Fir(FirCode::LFEE)),
        area_code_chars(AreaCode::Fir(FirCode::LFFF)),
        area_code_chars(AreaCode::Fir(FirCode::LFMM)),
        area_code_chars(AreaCode::Fir(FirCode::LFRR)),
        area_code_chars(AreaCode::Lffm),
    ]
}

/// The folder names to look for in a candidate directory (see
/// [`pack_marker_chars`]).
pub fn controller_pack_markers() -> (r: Vec<&'static str>)
    ensures
        str_views(r@) == pack_marker_chars(),
{
    let mut r: Vec<&'static str> = Vec::new();
    let lfxx = "LFXX";
    proof {
        reveal_strlit("LFXX");
    }
    assert(lfxx@ =~= lfxx_dir_chars());
    let a = FirCode::LFBB.as_str();
    let b = FirCode::LFEE.as_str();
    let c = FirCode::LFFF.as_str();
    let d = FirCode::LFMM.as_str();
    let e = FirCode::LFRR.as_str();
    let f = AreaCode::Lffm.as_str();
    r.push(lfxx);
    r.push(a);
    r.push(b);
    r.push(c);
    r.push(d);
    r.push(e);
    r.push(f);
    assert(r@ =~= seq![lfxx, a, b, c, d, e, f]);
    assert(str_views(r@) =~= pack_marker_chars()) by {
        assert(str_views(r@)[0] == lfxx@);
        assert(str_views(r@)[1] == a@);
        assert(str_views(r@)[2] == b@);
        assert(str_views(r@)[3] == c@);
        assert(str_views(r@)[4] == d@);
        assert(str_views(r@)[5] == e@);
        assert(str_views(r@)[6] == f@);
    }
    r
}

fn contains_name(dirs: &Vec<String>, name: &str) -> (r: bool)
    ensures
        r == views(dirs@).contains(name@),
{
    let mut i: usize = 0;
    while i < dirs.len()
        invariant
            0 <= i <= dirs@.len(),
            forall|k: int| 0 <= k < i ==> dirs@[k]@ != name@,
        decreases dirs@.len() - i,
    {
        if crate::text::str_eq(dirs[i].as_str(), name) {
            assert(views(dirs@)[i as int] == name@);
            return true;
        }
        i = i + 1;
    }
    assert(!views(dirs@).contains(name@)) by {
        if views(dirs@).contains(name@) {
            let k = choose|k: int| 0 <= k < views(dirs@).len() && views(dirs@)[k] == name@;
            assert(dirs@[k]@ == name@);
        }
    }
    false
}

/// Whether a directory is a controller pack, given which of its
/// [`controller_pack_markers`] exist as directories: it needs `LFXX` plus at
/// least one area folder.
pub fn looks_like_controller_pack(dirs: &Vec<String>) -> (r: bool)
    ensures
        r == is_controller_pack(views(dirs@)),
{
    let markers = controller_pack_markers();
    let ghost mv = str_views(markers@);
    assert(mv.len() == markers@.len());
    assert(pack_marker_chars().len() == 7);
    assert(mv[0] == markers@[0]@);
    let has_lfxx = contains_name(dirs, markers[0]);
    let mut has_area = false;
    let mut i: usize = 1;
    while i < 7
        invariant
            1 <= i <= 7,
            markers@.len() == 7,
            mv == str_views(markers@),
            mv == pack_marker_chars(),
            has_area == exists|k: int| 1 <= k < i && views(dirs@).contains(#[trigger] mv[k]),
        decreases 7 - i,
    {
        assert(mv[i as int] == markers@[i as int]@);
        if contains_name(dirs, markers[i]) {
            has_area = true;
        }
        i = i + 1;
    }
    proof {
        let ds = views(dirs@);
        if has_area {
            let k = choose|k: int| 1 <= k < 7 && ds.contains(#[trigger] mv[k]);
            let area = if k == 1 {
                AreaCode::Fir(FirCode::LFBB)
            } else if k == 2 {
                AreaCode::Fir(FirCode::LFEE)
            } else if k == 3 {
                AreaCode::Fir(FirCode::LFFF)
            } else if k == 4 {
                AreaCode::Fir(FirCode::LFMM)
            } else if k == 5 {
                AreaCode::Fir(FirCode::LFRR)
            } else {
                AreaCode::Lffm
            };
            assert(ds.contains(area_code_chars(area)));
        } else {
            assert forall|area: AreaCode| !ds.contains(#[trigger] area_code_chars(area)) by {
                match area {
                    AreaCode::Fir(FirCode::LFBB) => assert(!ds.contains(mv[1])),
                    AreaCode::Fir(FirCode::LFEE) => assert(!ds.contains(mv[2])),
                    AreaCode::Fir(FirCode::LFFF) => assert(!ds.contains(mv[3])),
                    AreaCode::Fir(FirCode::LFMM) => assert(!ds.contains(mv[4])),
                    AreaCode::Fir(FirCode::LFRR) => assert(!ds.contains(mv[5])),
                    AreaCode::Lffm => assert(!ds.contains(mv[6])),
                }
            }
        }
    }
    has_lfxx && has_area
}

/// The names of the subdirectories of `dir`, as listed there.
pub struct DirListing {
    pub dir: String,
    pub subdirs: Vec<String>,
}

/// A path and whether the condition it was checked for holds there.
pub struct PathCheck {
    pub path: String,
    pub holds: bool,
}

/// A subdirectory of a search root and whether it looks like a controller pack.
pub struct ChildDir {
    pub name: String,
    pub is_pack: bool,
}

/// What was found at one search root: whether the root itself looks like a
/// controller pack, and its immediate subdirectories.
pub struct RootScan {
    pub root: String,
    pub root_is_pack: bool,
    pub children: Vec<ChildDir>,
}

/// The native places a pack usually lives: `Documents`, `Desktop` and the
/// home directory itself, most likely first.
pub open spec fn native_search_roots(home: Seq<char>) -> Seq<Seq<char>> {
    seq![join_path(home, "Documents"@), join_path(home, "Desktop"@), home]
}

/// The directories holding Wine-style bottles, in preference order:
/// CrossOver's, Whisky's, then the plain wine/winetricks convention.
pub open spec fn bottle_root_chars(home: Seq<char>) -> Seq<Seq<char>> {
    seq![
        join_path(home, "Library/Application Support/CrossOver/Bottles"@),
        join_path(home, "Library/Containers/com.isaacmarovitz.Whisky/Bottles"@),
        join_path(home, ".local/share/wineprefixes"@),
    ]
}

/// The paths of `names` below `dir`, in order.
pub open spec fn child_paths(dir: Seq<char>, names: Seq<Seq<char>>) -> Seq<Seq<char>>
    decreases names.len(),
{
    if names.len() == 0 {
        Seq::empty()
    } else {
        child_paths(dir, names.drop_last()).push(join_path(dir, names.last()))
    }
}

/// The paths of every listed subdirectory, listing after listing.
pub open spec fn listed_paths(listings: Seq<DirListing>) -> Seq<Seq<char>>
    decreases listings.len(),
{
    if listings.len() == 0 {
        Seq::empty()
    } else {
        listed_paths(listings.drop_last()) + child_paths(
            listings.last().dir@,
            views(listings.last().subdirs@),
        )
    }
}

/// Candidate Wine prefixes: `~/.wine`, then every bottle listed under the
/// bottle directories.
pub open spec fn wine_prefix_candidate_chars(home: Seq<char>, bottles: Seq<DirListing>) -> Seq<
    Seq<char>,
> {
    seq![join_path(home, ".wine"@)] + listed_paths(bottles)
}

/// The checked paths for which the check holds, in order.
pub open spec fn paths_that_hold(checks: Seq<PathCheck>) -> Seq<Seq<char>>
    decreases checks.len(),
{
    if checks.len() == 0 {
        Seq::empty()
    } else if checks.last().holds {
        paths_that_hold(checks.drop_last()).push(checks.last().path@)
    } else {
        paths_that_hold(checks.drop_last())
    }
}

/// The `Documents` and `My Documents` folders of one Windows user directory.
pub open spec fn user_documents(user_dir: Seq<char>) -> Seq<Seq<char>> {
    seq![join_path(user_dir, "Documents"@), join_path(user_dir, "My Documents"@)]
}

/// The document folders of the listed users of one `users` directory,
/// skipping `Public` (in any ASCII case).
pub open spec fn users_document_dirs(users_dir: Seq<char>, names: Seq<Seq<char>>) -> Seq<Seq<char>>
    decreases names.len(),
{
    if names.len() == 0 {
        Seq::empty()
    } else if eq_ignore_ascii_case(names.last(), "Public"@) {
        users_document_dirs(users_dir, names.drop_last())
    } else {
        users_document_dirs(users_dir, names.drop_last()) + user_documents(
            join_path(users_dir, names.last()),
        )
    }
}

/// The document folders of every listed `users` directory, in order.
pub open spec fn wine_document_dir_chars(users: Seq<DirListing>) -> Seq<Seq<char>>
    decreases users.len(),
{
    if users.len() == 0 {
        Seq::empty()
    } else {
        wine_document_dir_chars(users.drop_last()) + users_document_dirs(
            users.last().dir@,
            views(users.last().subdirs@),
        )
    }
}

/// The directories that hold Wine bottles, in preference order.
pub fn wine_bottle_roots(home: &str) -> (r: Vec<String>)
    ensures
        views(r@) == bottle_root_chars(home@),
{
    let mut r: Vec<String> = Vec::new();
    r.push(join_path_str(home, "Library/Application Support/CrossOver/Bottles"));
    r.push(join_path_str(home, "Library/Containers/com.isaacmarovitz.Whisky/Bottles"));
    r.push(join_path_str(home, ".local/share/wineprefixes"));
    assert(views(r@) =~= bottle_root_chars(home@));
    r
}

fn push_child_paths(out: &mut Vec<String>, dir: &str, names: &Vec<String>)
    ensures
        views(final(out)@) == views(old(out)@) + child_paths(dir@, views(names@)),
{
    let ghost start = views(out@);
    let ghost ns = views(names@);
    let mut i: usize = 0;
    assert(ns.take(0) =~= Seq::<Seq<char>>::empty());
    assert(start + Seq::<Seq<char>>::empty() =~= start);
    while i < names.len()
        invariant
            ns == views(names@),
            0 <= i <= names@.len(),
            views(out@) == start + child_paths(dir@, ns.take(i as int)),
        decreases names@.len() - i,
    {
        let p = join_path_str(dir, names[i].as_str());
        let ghost before = views(out@);
        out.push(p);
        assert(views(out@) =~= before.push(p@));
        assert(ns.take(i + 1).drop_last() =~= ns.take(i as int));
        assert(ns.take(i + 1).last() == names@[i as int]@);
        assert(start + child_paths(dir@, ns.take(i + 1)) =~= (start + child_paths(
            dir@,
            ns.take(i as int),
        )).push(p@));
        i = i + 1;
    }
    assert(ns.take(names@.len() as int) =~= ns);
}

/// Candidate Wine prefixes, in preference order: `~/.wine`, then every
/// bottle found in the listings of the [`wine_bottle_roots`].
pub fn wine_prefix_candidates(home: &str, bottles: &Vec<DirListing>) -> (r: Vec<String>)
    ensures
        views(r@) == wine_prefix_candidate_chars(home@, bottles@),
{
    let mut r: Vec<String> = Vec::new();
    r.push(join_path_str(home, ".wine"));
    let ghost first = views(r@);
    let mut i: usize = 0;
    assert(bottles@.take(0) =~= Seq::<DirListing>::empty());
    assert(first + Seq::<Seq<char>>::empty() =~= first);
    while i < bottles.len()
        invariant
            0 <= i <= bottles@.len(),
            views(r@) == first + listed_paths(bottles@.take(i as int)),
        decreases bottles@.len() - i,
    {
        let ghost before = views(r@);
        push_child_paths(&mut r, bottles[i].dir.as_str(), &bottles[i].subdirs);
        assert(bottles@.take(i + 1).drop_last() =~= bottles@.take(i as int));
        assert(bottles@.take(i + 1).last() == bottles@[i as int]);
        assert(views(r@) =~= first + listed_paths(bottles@.take(i + 1)));
        i = i + 1;
    }
    assert(bottles@.take(bottles@.len() as int) =~= bottles@);
    assert(views(r@) =~= wine_prefix_candidate_chars(home@, bottles@));
    r
}

/// The folder whose presence makes a directory a Wine prefix.
pub fn wine_drive_c(prefix: &str) -> (r: String)
    ensures
        r@ == join_path(prefix@, "drive_c"@),
{
    join_path_str(prefix, "drive_c")
}

/// The Wine prefixes among the candidates: those where `drive_c` is a
/// directory, in order.
pub fn wine_prefixes(checked: &Vec<PathCheck>) -> (r: Vec<String>)
    ensures
        views(r@) == paths_that_hold(checked@),
{
    let mut r: Vec<String> = Vec::new();
    let mut i: usize = 0;
    assert(checked@.take(0) =~= Seq::<PathCheck>::empty());
    while i < checked.len()
        invariant
            0 <= i <= checked@.len(),
            views(r@) == paths_that_hold(checked@.take(i as int)),
        decreases checked@.len() - i,
    {
        assert(checked@.take(i + 1).drop_last() =~= checked@.take(i as int));
        assert(checked@.take(i + 1).last() == checked@[i as int]);
        if checked[i].holds {
            let ghost before = views(r@);
            r.push(checked[i].path.as_str().to_owned());
            assert(views(r@) =~= before.push(checked@[i as int].path@));
        }
        i = i + 1;
    }
    assert(checked@.take(checked@.len() as int) =~= checked@);
    r
}

/// The directory holding the Windows users of a Wine prefix.
pub fn wine_users_dir(prefix: &str) -> (r: String)
    ensures
        r@ == wine_users_chars(prefix@),
{
    let drive_c = join_path_str(prefix, "drive_c");
    join_path_str(drive_c.as_str(), "users")
}

fn push_user_documents(out: &mut Vec<String>, users_dir: &str, names: &Vec<String>)
    ensures
        views(final(out)@) == views(old(out)@) + users_document_dirs(users_dir@, views(names@)),
{
    let ghost start = views(out@);
    let ghost ns = views(names@);
    let public = "Public";
    let mut i: usize = 0;
    assert(ns.take(0) =~= Seq::<Seq<char>>::empty());
    assert(start + Seq::<Seq<char>>::empty() =~= start);
    while i < names.len()
        invariant
            ns == views(names@),
            public@ == "Public"@,
            0 <= i <= names@.len(),
            views(out@) == start + users_document_dirs(users_dir@, ns.take(i as int)),
        decreases names@.len() - i,
    {
        assert(ns.take(i + 1).drop_last() =~= ns.take(i as int));
        assert(ns.take(i + 1).last() == names@[i as int]@);
        let name = names[i].as_str();
        if !eq_ignore_ascii_case_str(name, public) {
            let user = join_path_str(users_dir, name);
            let docs = join_path_str(user.as_str(), "Documents");
            let my_docs = join_path_str(user.as_str(), "My Documents");
            let ghost before = views(out@);
            out.push(docs);
            out.push(my_docs);
            assert(views(out@) =~= before + user_documents(user@));
            assert(start + users_document_dirs(users_dir@, ns.take(i + 1)) =~= (start
                + users_document_dirs(users_dir@, ns.take(i as int))) + user_documents(user@));
        }
        i = i + 1;
    }
    assert(ns.take(names@.len() as int) =~= ns);
}

/// The `Documents` folders of every Windows user inside the Wine prefixes,
/// given the listing of each prefix's [`wine_users_dir`]. `Public` holds no
/// per-user Documents worth scanning and is skipped.
pub fn wine_document_dirs(users: &Vec<DirListing>) -> (r: Vec<String>)
    ensures
        views(r@) == wine_document_dir_chars(users@),
{
    let mut r: Vec<String> = Vec::new();
    let mut i: usize = 0;
    assert(users@.take(0) =~= Seq::<DirListing>::empty());
    while i < users.len()
        invariant
            0 <= i <= users@.len(),
            views(r@) == wine_document_dir_chars(users@.take(i as int)),
        decreases users@.len() - i,
    {
        push_user_documents(&mut r, users[i].dir.as_str(), &users[i].subdirs);
        assert(users@.take(i + 1).drop_last() =~= users@.take(i as int));
        assert(users@.take(i + 1).last() == users@[i as int]);
        i = i + 1;
    }
    assert(users@.take(users@.len() as int) =~= users@);
    r
}

/// Directories worth scanning for a controller pack, most likely first:
/// `Documents`, `Desktop`, the home directory, then the given Wine document
/// folders. Each is checked both as a pack itself and as a parent holding
/// one, so no folder names need to be guessed.
pub fn pack_dir_search_roots(home: &str, wine_documents: &Vec<String>) -> (r: Vec<String>)
    ensures
        views(r@) == native_search_roots(home@) + views(wine_documents@),
{
    let mut r: Vec<String> = Vec::new();
    r.push(join_path_str(home, "Documents"));
    r.push(join_path_str(home, "Desktop"));
    r.push(home.to_owned());
    let mut i: usize = 0;
    while i < wine_documents.len()
        invariant
            0 <= i <= wine_documents@.len(),
            views(r@) == native_search_roots(home@) + views(wine_documents@).take(i as int),
        decreases wine_documents@.len() - i,
    {
        let ghost before = views(r@);
        r.push(wine_documents[i].as_str().to_owned());
        assert(views(r@) =~= before.push(wine_documents@[i as int]@));
        assert(views(wine_documents@).take(i + 1) =~= views(wine_documents@).take(i as int).push(
            wine_documents@[i as int]@,
        ));
        i = i + 1;
    }
    assert(views(wine_documents@).take(wine_documents@.len() as int) =~= views(wine_documents@));
    r
}

/// The name, least in [`lex_lt`] order, of the children that look like a
/// controller pack: the first such child once the children are sorted.
pub open spec fn least_pack_child(children: Seq<ChildDir>) -> Option<Seq<char>>
    decreases children.len(),
{
    if children.len() == 0 {
        None
    } else {
        let best = least_pack_child(children.drop_last());
        let c = children.last();
        if c.is_pack && (best is None || lex_lt(c.name@, best.unwrap())) {
            Some(c.name@)
        } else {
            best
        }
    }
}

/// The first pack found by scanning the roots in order: a root that is a pack
/// itself, else its least child that is one.
pub open spec fn first_pack_in_roots(roots: Seq<RootScan>) -> Option<Seq<char>>
    decreases roots.len(),
{
    if roots.len() == 0 {
        None
    } else if roots[0].root_is_pack {
        Some(roots[0].root@)
    } else {
        match least_pack_child(roots[0].children@) {
            Some(name) => Some(join_path(roots[0].root@, name)),
            None => first_pack_in_roots(roots.drop_first()),
        }
    }
}

/// The detected pack: the current directory when it is a pack, else the first
/// pack found under the search roots of the home directory, if there is one.
pub open spec fn detected_pack_dir(cwd: Option<PathCheck>, roots: Option<Seq<RootScan>>) -> Option<
    Seq<char>,
> {
    match cwd {
        Some(c) if c.holds => Some(c.path@),
        _ => match roots {
            Some(r) => first_pack_in_roots(r),
            None => None,
        },
    }
}

/// The least-named child that looks like a controller pack.
fn least_pack_child_name(children: &Vec<ChildDir>) -> (r: Option<String>)
    ensures
        match r {
            Some(name) => least_pack_child(children@) == Some(name@),
            None => least_pack_child(children@) is None,
        },
{
    let mut best: Option<usize> = None;
    let mut i: usize = 0;
    assert(children@.take(0) =~= Seq::<ChildDir>::empty());
    while i < children.len()
        invariant
            0 <= i <= children@.len(),
            match best {
                Some(b) => b < i && least_pack_child(children@.take(i as int)) == Some(
                    children@[b as int].name@,
                ),
                None => least_pack_child(children@.take(i as int)) is None,
            },
        decreases children@.len() - i,
    {
        assert(children@.take(i + 1).drop_last() =~= children@.take(i as int));
        assert(children@.take(i + 1).last() == children@[i as int]);
        if children[i].is_pack {
            let better = match best {
                None => true,
                Some(b) => lex_less(children[i].name.as_str(), children[b].name.as_str()),
            };
            if better {
                best = Some(i);
            }
        }
        i = i + 1;
    }
    assert(children@.take(children@.len() as int) =~= children@);
    match best {
        Some(b) => Some(children[b].name.as_str().to_owned()),
        None => None,
    }
}

/// The first directory that looks like a controller pack: the current
/// directory (the legacy layout put the installer inside the pack), then each
/// search root and its immediate children, the children taken in name order
/// so that the same install is picked every run. `roots` is `None` when there
/// is no home directory to search.
pub fn detect_pack_dir_in(cwd: Option<&PathCheck>, roots: Option<&Vec<RootScan>>) -> (r: Option<
    String,
>)
    ensures
        opt_view(r) == detected_pack_dir(
            match cwd {
                Some(c) => Some(*c),
                None => None,
            },
            match roots {
                Some(v) => Some(v@),
                None => None,
            },
        ),
{
    let ghost cwd_spec = match cwd {
        Some(c) => Some(*c),
        None => None,
    };
    let ghost roots_spec = match roots {
        Some(v) => Some(v@),
        None => None,
    };
    if let Some(c) = cwd {
        if c.holds {
            return Some(c.path.as_str().to_owned());
        }
    }
    let scans = match roots {
        Some(scans) => scans,
        None => return None,
    };
    let ghost all = scans@;
    assert(detected_pack_dir(cwd_spec, roots_spec) == first_pack_in_roots(all));
    let mut i: usize = 0;
    assert(all.skip(0) =~= all);
    while i < scans.len()
        invariant
            all == scans@,
            cwd_spec == match cwd {
                Some(c) => Some(*c),
                None => None,
            },
            roots_spec == match roots {
                Some(v) => Some(v@),
                None => None,
            },
            detected_pack_dir(cwd_spec, roots_spec) == first_pack_in_roots(all),
            0 <= i <= scans@.len(),
            first_pack_in_roots(all) == first_pack_in_roots(all.skip(i as int)),
        decreases scans@.len() - i,
    {
        let scan = &scans[i];
        assert(all.skip(i as int)[0] == scans@[i as int]);
        assert(all.skip(i as int).drop_first() =~= all.skip(i + 1));
        if scan.root_is_pack {
            return Some(scan.root.as_str().to_owned());
        }
        match least_pack_child_name(&scan.children) {
            Some(name) => {
                return Some(join_path_str(scan.root.as_str(), name.as_str()));
            },
            None => {},
        }
        i = i + 1;
    }
    None
}

/// The pick among children does not depend on the order they were listed in:
/// it is the name of a child that looks like a pack and comes no later, in
/// name order, than any other such child; with no such child there is none.
pub proof fn lemma_least_pack_child(children: Seq<ChildDir>)
    ensures
        match least_pack_child(children) {
            Some(name) => exists|i: int|
                0 <= i < children.len() && (#[trigger] children[i]).is_pack && children[i].name@
                    == name,
            None => forall|i: int| 0 <= i < children.len() ==> !(#[trigger] children[i]).is_pack,
        },
        least_pack_child(children) matches Some(name) ==> forall|j: int|
            0 <= j < children.len() && (#[trigger] children[j]).is_pack ==> name
                == children[j].name@ || lex_lt(name, children[j].name@),
    decreases children.len(),
{
    if children.len() > 0 {
        let prev = children.drop_last();
        lemma_least_pack_child(prev);
        let c = children.last();
        let best = least_pack_child(prev);
        assert(children[children.len() - 1] == c);
        assert forall|j: int| 0 <= j < prev.len() implies #[trigger] children[j] == prev[j] by {}
        match least_pack_child(children) {
            Some(name) => {
                if c.is_pack && (best is None || lex_lt(c.name@, best.unwrap())) {
                    assert forall|j: int|
                        0 <= j < children.len() && (#[trigger] children[j]).is_pack implies name
                        == children[j].name@ || lex_lt(name, children[j].name@) by {
                        if j < prev.len() {
                            let b = best.unwrap();
                            lemma_lex_order(name, b, children[j].name@);
                        }
                    }
                } else {
                    let i = choose|i: int|
                        0 <= i < prev.len() && (#[trigger] prev[i]).is_pack && prev[i].name@ == name;
                    assert(children[i] == prev[i]);
                    assert forall|j: int|
                        0 <= j < children.len() && (#[trigger] children[j]).is_pack implies name
                        == children[j].name@ || lex_lt(name, children[j].name@) by {
                        if j == children.len() - 1 {
                            lemma_lex_order(name, c.name@, c.name@);
                        }
                    }
                }
            },
            None => {},
        }
    }
}

/// Only checked paths for which the check holds are kept: a candidate Wine
/// prefix without `drive_c` is never a prefix.
pub proof fn lemma_paths_that_hold(checks: Seq<PathCheck>)
    ensures
        forall|i: int|
            #![trigger paths_that_hold(checks)[i]]
            0 <= i < paths_that_hold(checks).len() ==> exists|k: int|
                0 <= k < checks.len() && (#[trigger] checks[k]).holds && checks[k].path@
                    == paths_that_hold(checks)[i],
        (forall|k: int| 0 <= k < checks.len() ==> !(#[trigger] checks[k]).holds) ==> paths_that_hold(
            checks,
        ).len() == 0,
    decreases checks.len(),
{
    if checks.len() > 0 {
        let prev = checks.drop_last();
        lemma_paths_that_hold(prev);
        assert forall|k: int| 0 <= k < prev.len() implies #[trigger] checks[k] == prev[k] by {}
        assert(checks[checks.len() - 1] == checks.last());
        assert forall|i: int|
            #![trigger paths_that_hold(checks)[i]]
            0 <= i < paths_that_hold(checks).len() implies exists|k: int|
            0 <= k < checks.len() && (#[trigger] checks[k]).holds && checks[k].path@
                == paths_that_hold(checks)[i] by {
            if i < paths_that_hold(prev).len() {
                assert(paths_that_hold(checks)[i] == paths_that_hold(prev)[i]);
                let k = choose|k: int|
                    0 <= k < prev.len() && (#[trigger] prev[k]).holds && prev[k].path@
                        == paths_that_hold(prev)[i];
                assert(checks[k] == prev[k]);
            }
        }
    }
}

/// The pick among children does not depend on the order in which the
/// directory was listed: two listings of the same children pick the same one.
pub proof fn lemma_pick_ignores_listing_order(a: Seq<ChildDir>, b: Seq<ChildDir>)
    requires
        forall|i: int| 0 <= i < a.len() ==> b.contains(#[trigger] a[i]),
        forall|j: int| 0 <= j < b.len() ==> a.contains(#[trigger] b[j]),
    ensures
        least_pack_child(a) == least_pack_child(b),
{
    lemma_least_pack_child(a);
    lemma_least_pack_child(b);
    match (least_pack_child(a), least_pack_child(b)) {
        (Some(x), Some(y)) => {
            let i = choose|i: int| 0 <= i < a.len() && (#[trigger] a[i]).is_pack && a[i].name@ == x;
            let j = choose|j: int| 0 <= j < b.len() && (#[trigger] b[j]).is_pack && b[j].name@ == y;
            assert(b.contains(a[i]));
            let k = choose|k: int| 0 <= k < b.len() && b[k] == a[i];
            assert(b[k].is_pack);
            assert(a.contains(b[j]));
            let l = choose|l: int| 0 <= l < a.len() && a[l] == b[j];
            assert(a[l].is_pack);
            lemma_lex_order(x, y, x);
        },
        (Some(x), None) => {
            let i = choose|i: int| 0 <= i < a.len() && (#[trigger] a[i]).is_pack && a[i].name@ == x;
            assert(b.contains(a[i]));
            let k = choose|k: int| 0 <= k < b.len() && b[k] == a[i];
            assert(b[k].is_pack);
        },
        (None, Some(y)) => {
            let j = choose|j: int| 0 <= j < b.len() && (#[trigger] b[j]).is_pack && b[j].name@ == y;
            assert(a.contains(b[j]));
            let l = choose|l: int| 0 <= l < a.len() && a[l] == b[j];
            assert(a[l].is_pack);
        },
        (None, None) => {},
    }
}

/// Every path of `paths` starts with the text of `home`.
pub open spec fn all_under(home: Seq<char>, paths: Seq<Seq<char>>) -> bool {
    forall|i: int| 0 <= i < paths.len() ==> home.is_prefix_of(#[trigger] paths[i])
}

proof fn lemma_join_extends(base: Seq<char>, rel: Seq<char>)
    ensures
        base.is_prefix_of(join_path(base, rel)),
{
    let j = join_path(base, rel);
    assert(base =~= j.subrange(0, base.len() as int));
}

proof fn lemma_prefix_trans(a: Seq<char>, b: Seq<char>, c: Seq<char>)
    requires
        a.is_prefix_of(b),
        b.is_prefix_of(c),
    ensures
        a.is_prefix_of(c),
{
    assert forall|k: int| 0 <= k < a.len() implies a[k] == c.subrange(0, a.len() as int)[k] by {
        assert(a[k] == b.subrange(0, a.len() as int)[k]);
        assert(b[k] == c.subrange(0, b.len() as int)[k]);
    }
    assert(a =~= c.subrange(0, a.len() as int));
}

proof fn lemma_child_paths_under(home: Seq<char>, dir: Seq<char>, names: Seq<Seq<char>>)
    requires
        home.is_prefix_of(dir),
    ensures
        all_under(home, child_paths(dir, names)),
    decreases names.len(),
{
    if names.len() > 0 {
        lemma_child_paths_under(home, dir, names.drop_last());
        lemma_join_extends(dir, names.last());
        lemma_prefix_trans(home, dir, join_path(dir, names.last()));
        let prev = child_paths(dir, names.drop_last());
        assert forall|i: int| 0 <= i < child_paths(dir, names).len() implies home.is_prefix_of(
            #[trigger] child_paths(dir, names)[i],
        ) by {
            if i < prev.len() {
                assert(child_paths(dir, names)[i] == prev[i]);
            }
        }
    }
}

proof fn lemma_listed_paths_under(home: Seq<char>, listings: Seq<DirListing>)
    requires
        forall|i: int| 0 <= i < listings.len() ==> home.is_prefix_of((#[trigger] listings[i]).dir@),
    ensures
        all_under(home, listed_paths(listings)),
    decreases listings.len(),
{
    if listings.len() > 0 {
        let prev = listings.drop_last();
        assert forall|i: int| 0 <= i < prev.len() implies home.is_prefix_of((#[trigger] prev[i]).dir@) by {
            assert(prev[i] == listings[i]);
        }
        lemma_listed_paths_under(home, prev);
        assert(listings[listings.len() - 1] == listings.last());
        lemma_child_paths_under(home, listings.last().dir@, views(listings.last().subdirs@));
        let a = listed_paths(prev);
        let b = child_paths(listings.last().dir@, views(listings.last().subdirs@));
        assert forall|i: int| 0 <= i < listed_paths(listings).len() implies home.is_prefix_of(
            #[trigger] listed_paths(listings)[i],
        ) by {
            if i < a.len() {
                assert(listed_paths(listings)[i] == a[i]);
            } else {
                assert(listed_paths(listings)[i] == b[i - a.len()]);
            }
        }
    }
}

proof fn lemma_users_document_dirs_under(home: Seq<char>, dir: Seq<char>, names: Seq<Seq<char>>)
    requires
        home.is_prefix_of(dir),
    ensures
        all_under(home, users_document_dirs(dir, names)),
    decreases names.len(),
{
    if names.len() > 0 {
        let prev = users_document_dirs(dir, names.drop_last());
        lemma_users_document_dirs_under(home, dir, names.drop_last());
        let user = join_path(dir, names.last());
        lemma_join_extends(dir, names.last());
        lemma_prefix_trans(home, dir, user);
        lemma_join_extends(user, "Documents"@);
        lemma_join_extends(user, "My Documents"@);
        lemma_prefix_trans(home, user, join_path(user, "Documents"@));
        lemma_prefix_trans(home, user, join_path(user, "My Documents"@));
        let b = user_documents(user);
        assert forall|i: int| 0 <= i < users_document_dirs(dir, names).len() implies home.is_prefix_of(
            #[trigger] users_document_dirs(dir, names)[i],
        ) by {
            if i < prev.len() {
                assert(users_document_dirs(dir, names)[i] == prev[i]);
            } else {
                assert(users_document_dirs(dir, names)[i] == b[i - prev.len()]);
            }
        }
    }
}

proof fn lemma_wine_document_dirs_under(home: Seq<char>, users: Seq<DirListing>)
    requires
        forall|i: int| 0 <= i < users.len() ==> home.is_prefix_of((#[trigger] users[i]).dir@),
    ensures
        all_under(home, wine_document_dir_chars(users)),
    decreases users.len(),
{
    if users.len() > 0 {
        let prev = users.drop_last();
        assert forall|i: int| 0 <= i < prev.len() implies home.is_prefix_of((#[trigger] prev[i]).dir@) by {
            assert(prev[i] == users[i]);
        }
        lemma_wine_document_dirs_under(home, prev);
        assert(users[users.len() - 1] == users.last());
        lemma_users_document_dirs_under(home, users.last().dir@, views(users.last().subdirs@));
        let a = wine_document_dir_chars(prev);
        let b = users_document_dirs(users.last().dir@, views(users.last().subdirs@));
        assert forall|i: int| 0 <= i < wine_document_dir_chars(users).len() implies home.is_prefix_of(
            #[trigger] wine_document_dir_chars(users)[i],
        ) by {
            if i < a.len() {
                assert(wine_document_dir_chars(users)[i] == a[i]);
            } else {
                assert(wine_document_dir_chars(users)[i] == b[i - a.len()]);
            }
        }
    }
}

/// The users directory of a Wine prefix (see [`wine_users_dir`]).
pub open spec fn wine_users_chars(prefix: Seq<char>) -> Seq<char> {
    join_path(join_path(prefix, "drive_c"@), "users"@)
}

/// Every search root lies under the home directory (its text starts with the
/// home directory's), when the Wine steps are chained as intended: the bottle
/// listings are listings of the [`wine_bottle_roots`], the checked prefixes
/// are [`wine_prefix_candidates`], and the users listings are listings of
/// the [`wine_users_dir`] of the prefixes [`wine_prefixes`] kept.
pub proof fn lemma_search_roots_lie_under_home(
    home: Seq<char>,
    bottles: Seq<DirListing>,
    checked: Seq<PathCheck>,
    users: Seq<DirListing>,
)
    requires
        forall|i: int| 0 <= i < bottles.len() ==> bottle_root_chars(home).contains(
            (#[trigger] bottles[i]).dir@,
        ),
        forall|i: int| 0 <= i < checked.len() ==> wine_prefix_candidate_chars(home, bottles).contains(
            (#[trigger] checked[i]).path@,
        ),
        forall|i: int|
            0 <= i < users.len() ==> exists|p: Seq<char>|
                paths_that_hold(checked).contains(p) && (#[trigger] users[i]).dir@
                    == wine_users_chars(p),
    ensures
        all_under(home, native_search_roots(home) + wine_document_dir_chars(users)),
{
    // The bottle roots lie under home.
    lemma_join_extends(home, "Library/Application Support/CrossOver/Bottles"@);
    lemma_join_extends(home, "Library/Containers/com.isaacmarovitz.Whisky/Bottles"@);
    lemma_join_extends(home, ".local/share/wineprefixes"@);
    assert forall|i: int| 0 <= i < bottles.len() implies home.is_prefix_of((#[trigger] bottles[i]).dir@) by {
        assert(bottle_root_chars(home).contains(bottles[i].dir@));
        let k = choose|k: int| 0 <= k < 3 && bottle_root_chars(home)[k] == bottles[i].dir@;
    }
    // So do the candidate prefixes.
    lemma_listed_paths_under(home, bottles);
    lemma_join_extends(home, ".wine"@);
    let cands = wine_prefix_candidate_chars(home, bottles);
    assert(all_under(home, cands)) by {
        let l = listed_paths(bottles);
        assert forall|i: int| 0 <= i < cands.len() implies home.is_prefix_of(#[trigger] cands[i]) by {
            if i > 0 {
                assert(cands[i] == l[i - 1]);
            }
        }
    }
    // And the kept prefixes, their users directories and their documents.
    lemma_paths_that_hold(checked);
    assert forall|i: int| 0 <= i < users.len() implies home.is_prefix_of((#[trigger] users[i]).dir@) by {
        let p = choose|p: Seq<char>|
            paths_that_hold(checked).contains(p) && users[i].dir@ == wine_users_chars(p);
        let j = choose|j: int| 0 <= j < paths_that_hold(checked).len() && paths_that_hold(checked)[j] == p;
        let k = choose|k: int|
            0 <= k < checked.len() && (#[trigger] checked[k]).holds && checked[k].path@
                == paths_that_hold(checked)[j];
        assert(cands.contains(checked[k].path@));
        let c = choose|c: int| 0 <= c < cands.len() && cands[c] == checked[k].path@;
        assert(home.is_prefix_of(cands[c]));
        let d = join_path(p, "drive_c"@);
        lemma_join_extends(p, "drive_c"@);
        lemma_join_extends(d, "users"@);
        lemma_prefix_trans(home, p, d);
        lemma_prefix_trans(home, d, wine_users_chars(p));
    }
    lemma_wine_document_dirs_under(home, users);
    lemma_join_extends(home, "Documents"@);
    lemma_join_extends(home, "Desktop"@);
    assert(home.is_prefix_of(home)) by {
        assert(home =~= home.subrange(0, home.len() as int));
    }
    let n = native_search_roots(home);
    let w = wine_document_dir_chars(users);
    assert forall|i: int| 0 <= i < (n + w).len() implies home.is_prefix_of(#[trigger] (n + w)[i]) by {
        if i >= 3 {
            assert((n + w)[i] == w[i - 3]);
        }
    }
}

/// How many subdirectories the listings hold in all.
pub open spec fn listed_count(listings: Seq<DirListing>) -> nat
    decreases listings.len(),
{
    if listings.len() == 0 {
        0
    } else {
        listed_count(listings.drop_last()) + listings.last().subdirs@.len()
    }
}

proof fn lemma_child_paths(dir: Seq<char>, names: Seq<Seq<char>>)
    ensures
        child_paths(dir, names).len() == names.len(),
        forall|k: int|
            0 <= k < names.len() ==> #[trigger] child_paths(dir, names)[k] == join_path(
                dir,
                names[k],
            ),
    decreases names.len(),
{
    if names.len() > 0 {
        lemma_child_paths(dir, names.drop_last());
        let prev = child_paths(dir, names.drop_last());
        assert forall|k: int| 0 <= k < names.len() implies #[trigger] child_paths(dir, names)[k]
            == join_path(dir, names[k]) by {
            if k < names.len() - 1 {
                assert(child_paths(dir, names)[k] == prev[k]);
                assert(names.drop_last()[k] == names[k]);
            }
        }
    }
}

proof fn lemma_listed_paths(listings: Seq<DirListing>)
    ensures
        listed_paths(listings).len() == listed_count(listings),
        forall|i: int, j: int|
            0 <= i < listings.len() && 0 <= j < listings[i].subdirs@.len() ==> listed_paths(
                listings,
            ).contains(join_path(listings[i].dir@, #[trigger] listings[i].subdirs@[j]@)),
        forall|k: int|
            0 <= k < listed_paths(listings).len() ==> exists|i: int, j: int|
                0 <= i < listings.len() && 0 <= j < listings[i].subdirs@.len() && #[trigger] listed_paths(
                    listings,
                )[k] == join_path(listings[i].dir@, listings[i].subdirs@[j]@),
    decreases listings.len(),
{
    if listings.len() > 0 {
        let prev = listings.drop_last();
        let l = listings.last();
        lemma_listed_paths(prev);
        lemma_child_paths(l.dir@, views(l.subdirs@));
        let a = listed_paths(prev);
        let b = child_paths(l.dir@, views(l.subdirs@));
        let all = listed_paths(listings);
        assert(all == a + b);
        assert forall|i: int, j: int|
            0 <= i < listings.len() && 0 <= j < listings[i].subdirs@.len() implies all.contains(
            join_path(listings[i].dir@, #[trigger] listings[i].subdirs@[j]@),
        ) by {
            if i < prev.len() {
                assert(prev[i] == listings[i]);
                assert(a.contains(join_path(prev[i].dir@, prev[i].subdirs@[j]@)));
                let w = choose|w: int|
                    0 <= w < a.len() && a[w] == join_path(prev[i].dir@, prev[i].subdirs@[j]@);
                assert(all[w] == a[w]);
            } else {
                assert(listings[i] == l);
                assert(b[j] == join_path(l.dir@, views(l.subdirs@)[j]));
                assert(all[a.len() + j] == b[j]);
            }
        }
        assert forall|k: int| 0 <= k < all.len() implies exists|i: int, j: int|
            0 <= i < listings.len() && 0 <= j < listings[i].subdirs@.len() && #[trigger] all[k]
                == join_path(listings[i].dir@, listings[i].subdirs@[j]@) by {
            if k < a.len() {
                assert(all[k] == a[k]);
                let (i, j) = choose|i: int, j: int|
                    0 <= i < prev.len() && 0 <= j < prev[i].subdirs@.len() && a[k] == join_path(
                        prev[i].dir@,
                        prev[i].subdirs@[j]@,
                    );
                assert(prev[i] == listings[i]);
            } else {
                let j = k - a.len();
                assert(all[k] == b[j]);
                assert(listings[listings.len() - 1] == l);
                assert(views(l.subdirs@)[j] == l.subdirs@[j]@);
            }
        }
    }
}

/// Every listed bottle is a candidate prefix, and nothing else is besides
/// `~/.wine`: the candidates are `~/.wine` first, then one path per listed
/// subdirectory (each subdirectory `n` of a listed directory `d` gives
/// `d/n`), so there are one more candidates than listed subdirectories.
pub proof fn lemma_every_listed_bottle_is_a_candidate(home: Seq<char>, bottles: Seq<DirListing>)
    ensures
        wine_prefix_candidate_chars(home, bottles).len() == 1 + listed_count(bottles),
        wine_prefix_candidate_chars(home, bottles)[0] == join_path(home, ".wine"@),
        forall|i: int, j: int|
            0 <= i < bottles.len() && 0 <= j < bottles[i].subdirs@.len()
                ==> wine_prefix_candidate_chars(home, bottles).contains(
                join_path(bottles[i].dir@, #[trigger] bottles[i].subdirs@[j]@),
            ),
        forall|k: int|
            1 <= k < wine_prefix_candidate_chars(home, bottles).len() ==> exists|i: int, j: int|
                0 <= i < bottles.len() && 0 <= j < bottles[i].subdirs@.len()
                    && #[trigger] wine_prefix_candidate_chars(home, bottles)[k] == join_path(
                    bottles[i].dir@,
                    bottles[i].subdirs@[j]@,
                ),
{
    lemma_listed_paths(bottles);
    let l = listed_paths(bottles);
    let c = wine_prefix_candidate_chars(home, bottles);
    assert forall|i: int, j: int|
        0 <= i < bottles.len() && 0 <= j < bottles[i].subdirs@.len() implies c.contains(
        join_path(bottles[i].dir@, #[trigger] bottles[i].subdirs@[j]@),
    ) by {
        assert(l.contains(join_path(bottles[i].dir@, bottles[i].subdirs@[j]@)));
        let w = choose|w: int| 0 <= w < l.len() && l[w] == join_path(bottles[i].dir@, bottles[i].subdirs@[j]@);
        assert(c[w + 1] == l[w]);
    }
    assert forall|k: int| 1 <= k < c.len() implies exists|i: int, j: int|
        0 <= i < bottles.len() && 0 <= j < bottles[i].subdirs@.len() && #[trigger] c[k]
            == join_path(bottles[i].dir@, bottles[i].subdirs@[j]@) by {
        assert(c[k] == l[k - 1]);
    }
}

/// How many names of a listing are not `Public` (in any ASCII case).
pub open spec fn non_public_count(names: Seq<Seq<char>>) -> nat
    decreases names.len(),
{
    if names.len() == 0 {
        0
    } else if eq_ignore_ascii_case(names.last(), "Public"@) {
        non_public_count(names.drop_last())
    } else {
        non_public_count(names.drop_last()) + 1
    }
}

/// How many non-`Public` users the listings hold in all.
pub open spec fn users_count(users: Seq<DirListing>) -> nat
    decreases users.len(),
{
    if users.len() == 0 {
        0
    } else {
        users_count(users.drop_last()) + non_public_count(views(users.last().subdirs@))
    }
}

/// A document folder of user `name` in users directory `dir`.
pub open spec fn is_user_document_dir(p: Seq<char>, dir: Seq<char>, name: Seq<char>) -> bool {
    p == join_path(join_path(dir, name), "Documents"@) || p == join_path(
        join_path(dir, name),
        "My Documents"@,
    )
}

proof fn lemma_user_docs_len(dir: Seq<char>, names: Seq<Seq<char>>)
    ensures
        users_document_dirs(dir, names).len() == 2 * non_public_count(names),
    decreases names.len(),
{
    if names.len() > 0 {
        lemma_user_docs_len(dir, names.drop_last());
    }
}

proof fn lemma_user_docs_contain(dir: Seq<char>, names: Seq<Seq<char>>, j: int)
    requires
        0 <= j < names.len(),
        !eq_ignore_ascii_case(names[j], "Public"@),
    ensures
        exists|w: int|
            0 <= w && w + 1 < users_document_dirs(dir, names).len() && #[trigger] users_document_dirs(
                dir,
                names,
            )[w] == join_path(join_path(dir, names[j]), "Documents"@) && users_document_dirs(
                dir,
                names,
            )[w + 1] == join_path(join_path(dir, names[j]), "My Documents"@),
    decreases names.len(),
{
    let prev_names = names.drop_last();
    let prev = users_document_dirs(dir, prev_names);
    let all = users_document_dirs(dir, names);
    if j < prev_names.len() {
        assert(prev_names[j] == names[j]);
        lemma_user_docs_contain(dir, prev_names, j);
        let w = choose|w: int|
            0 <= w && w + 1 < prev.len() && #[trigger] prev[w] == join_path(
                join_path(dir, prev_names[j]),
                "Documents"@,
            ) && prev[w + 1] == join_path(join_path(dir, prev_names[j]), "My Documents"@);
        assert(all[w] == prev[w]);
        assert(all[w + 1] == prev[w + 1]);
    } else {
        assert(names.last() == names[j]);
        assert(all[prev.len() as int] == join_path(join_path(dir, names[j]), "Documents"@));
    }
}

proof fn lemma_user_docs_only(dir: Seq<char>, names: Seq<Seq<char>>, k: int)
    requires
        0 <= k < users_document_dirs(dir, names).len(),
    ensures
        exists|j: int|
            0 <= j < names.len() && !eq_ignore_ascii_case(names[j], "Public"@)
                && is_user_document_dir(users_document_dirs(dir, names)[k], dir, #[trigger] names[j]),
    decreases names.len(),
{
    let prev_names = names.drop_last();
    let prev = users_document_dirs(dir, prev_names);
    let all = users_document_dirs(dir, names);
    if k < prev.len() {
        assert(all[k] == prev[k]);
        lemma_user_docs_only(dir, prev_names, k);
        let j = choose|j: int|
            0 <= j < prev_names.len() && !eq_ignore_ascii_case(prev_names[j], "Public"@)
                && is_user_document_dir(prev[k], dir, #[trigger] prev_names[j]);
        assert(prev_names[j] == names[j]);
    } else {
        let j = names.len() - 1;
        assert(names[j] == names.last());
        assert(is_user_document_dir(all[k], dir, names[j]));
    }
}

proof fn lemma_wine_docs_len(users: Seq<DirListing>)
    ensures
        wine_document_dir_chars(users).len() == 2 * users_count(users),
    decreases users.len(),
{
    if users.len() > 0 {
        lemma_wine_docs_len(users.drop_last());
        lemma_user_docs_len(users.last().dir@, views(users.last().subdirs@));
    }
}

#[verifier::rlimit(60)]
#[verifier::spinoff_prover]
proof fn lemma_wine_docs_contain(users: Seq<DirListing>, i: int, j: int)
    requires
        0 <= i < users.len(),
        0 <= j < users[i].subdirs@.len(),
        !eq_ignore_ascii_case(users[i].subdirs@[j]@, "Public"@),
    ensures
        wine_document_dir_chars(users).contains(
            join_path(join_path(users[i].dir@, users[i].subdirs@[j]@), "Documents"@),
        ),
        wine_document_dir_chars(users).contains(
            join_path(join_path(users[i].dir@, users[i].subdirs@[j]@), "My Documents"@),
        ),
    decreases users.len(),
{
    let prev_users = users.drop_last();
    let u = users.last();
    let a = wine_document_dir_chars(prev_users);
    let b = users_document_dirs(u.dir@, views(u.subdirs@));
    let all = wine_document_dir_chars(users);
    assert(all == a + b);
    let d1 = join_path(join_path(users[i].dir@, users[i].subdirs@[j]@), "Documents"@);
    let d2 = join_path(join_path(users[i].dir@, users[i].subdirs@[j]@), "My Documents"@);
    if i < prev_users.len() {
        assert(prev_users[i] == users[i]);
        lemma_wine_docs_contain(prev_users, i, j);
        let w1 = choose|w: int| 0 <= w < a.len() && a[w] == d1;
        let w2 = choose|w: int| 0 <= w < a.len() && a[w] == d2;
        assert(all[w1] == a[w1]);
        assert(all[w2] == a[w2]);
    } else {
        assert(users[i] == u);
        assert(views(u.subdirs@)[j] == u.subdirs@[j]@);
        lemma_user_docs_contain(u.dir@, views(u.subdirs@), j);
        let w = choose|w: int|
            0 <= w && w + 1 < b.len() && #[trigger] b[w] == join_path(
                join_path(u.dir@, views(u.subdirs@)[j]),
                "Documents"@,
            ) && b[w + 1] == join_path(join_path(u.dir@, views(u.subdirs@)[j]), "My Documents"@);
        assert(all[a.len() + w] == b[w]);
        assert(all[a.len() + w + 1] == b[w + 1]);
    }
}

#[verifier::rlimit(60)]
#[verifier::spinoff_prover]
proof fn lemma_wine_docs_only(users: Seq<DirListing>, k: int)
    requires
        0 <= k < wine_document_dir_chars(users).len(),
    ensures
        exists|i: int, j: int|
            0 <= i < users.len() && 0 <= j < users[i].subdirs@.len() && !eq_ignore_ascii_case(
                users[i].subdirs@[j]@,
                "Public"@,
            ) && is_user_document_dir(
                wine_document_dir_chars(users)[k],
                users[i].dir@,
                #[trigger] users[i].subdirs@[j]@,
            ),
    decreases users.len(),
{
    let prev_users = users.drop_last();
    let u = users.last();
    let a = wine_document_dir_chars(prev_users);
    let b = users_document_dirs(u.dir@, views(u.subdirs@));
    let all = wine_document_dir_chars(users);
    assert(all == a + b);
    if k < a.len() {
        assert(all[k] == a[k]);
        lemma_wine_docs_only(prev_users, k);
        let (i, j) = choose|i: int, j: int|
            0 <= i < prev_users.len() && 0 <= j < prev_users[i].subdirs@.len()
                && !eq_ignore_ascii_case(prev_users[i].subdirs@[j]@, "Public"@)
                && is_user_document_dir(a[k], prev_users[i].dir@, prev_users[i].subdirs@[j]@);
        assert(prev_users[i] == users[i]);
        assert(is_user_document_dir(all[k], users[i].dir@, users[i].subdirs@[j]@));
    } else {
        assert(all[k] == b[k - a.len()]);
        lemma_user_docs_only(u.dir@, views(u.subdirs@), k - a.len());
        let j = choose|j: int|
            0 <= j < views(u.subdirs@).len() && !eq_ignore_ascii_case(views(u.subdirs@)[j], "Public"@)
                && is_user_document_dir(b[k - a.len()], u.dir@, #[trigger] views(u.subdirs@)[j]);
        assert(views(u.subdirs@)[j] == u.subdirs@[j]@);
        assert(users[users.len() - 1] == u);
        assert(is_user_document_dir(all[k], users[users.len() - 1].dir@, users[users.len() - 1].subdirs@[j]@));
    }
}

/// Every Windows user but `Public` is searched, and nothing else is: the
/// document folders are, for each listed user `n` of a users directory `d`
/// whose name is not `Public` in any ASCII case, `d/n/Documents` and
/// `d/n/My Documents`; there are two per such user and no others.
pub proof fn lemma_every_user_is_searched(users: Seq<DirListing>)
    ensures
        wine_document_dir_chars(users).len() == 2 * users_count(users),
        forall|i: int, j: int|
            0 <= i < users.len() && 0 <= j < users[i].subdirs@.len() && !eq_ignore_ascii_case(
                users[i].subdirs@[j]@,
                "Public"@,
            ) ==> {
                &&& wine_document_dir_chars(users).contains(
                    join_path(join_path(users[i].dir@, #[trigger] users[i].subdirs@[j]@), "Documents"@),
                )
                &&& wine_document_dir_chars(users).contains(
                    join_path(join_path(users[i].dir@, users[i].subdirs@[j]@), "My Documents"@),
                )
            },
        forall|k: int|
            0 <= k < wine_document_dir_chars(users).len() ==> exists|i: int, j: int|
                0 <= i < users.len() && 0 <= j < users[i].subdirs@.len() && !eq_ignore_ascii_case(
                    users[i].subdirs@[j]@,
                    "Public"@,
                ) && is_user_document_dir(
                    #[trigger] wine_document_dir_chars(users)[k],
                    users[i].dir@,
                    users[i].subdirs@[j]@,
                ),
{
    lemma_wine_docs_len(users);
    assert forall|i: int, j: int|
        0 <= i < users.len() && 0 <= j < users[i].subdirs@.len() && !eq_ignore_ascii_case(
            users[i].subdirs@[j]@,
            "Public"@,
        ) implies {
        &&& wine_document_dir_chars(users).contains(
            join_path(join_path(users[i].dir@, #[trigger] users[i].subdirs@[j]@), "Documents"@),
        )
        &&& wine_document_dir_chars(users).contains(
            join_path(join_path(users[i].dir@, users[i].subdirs@[j]@), "My Documents"@),
        )
    } by {
        lemma_wine_docs_contain(users, i, j);
    }
    assert forall|k: int| 0 <= k < wine_document_dir_chars(users).len() implies exists|i: int, j: int|
        0 <= i < users.len() && 0 <= j < users[i].subdirs@.len() && !eq_ignore_ascii_case(
            users[i].subdirs@[j]@,
            "Public"@,
        ) && is_user_document_dir(
            #[trigger] wine_document_dir_chars(users)[k],
            users[i].dir@,
            users[i].subdirs@[j]@,
        ) by {
        lemma_wine_docs_only(users, k);
    }
}

/// A search root holds a pack: it is one itself or one of its children is.
pub open spec fn root_holds_pack(scan: RootScan) -> bool {
    scan.root_is_pack || exists|j: int| 0 <= j < scan.children@.len() && (#[trigger] scan.children@[j]).is_pack
}

/// `name` is the name of a child that looks like a pack and comes no later,
/// in name order, than any other such child.
pub open spec fn is_first_pack_child(children: Seq<ChildDir>, name: Seq<char>) -> bool {
    &&& exists|j: int| 0 <= j < children.len() && (#[trigger] children[j]).is_pack && children[j].name@ == name
    &&& forall|j: int|
        0 <= j < children.len() && (#[trigger] children[j]).is_pack ==> name == children[j].name@
            || lex_lt(name, children[j].name@)
}

/// The search goes through every root in order and stops at the first one
/// that holds a pack: with no pack at any root or among any root's
/// children nothing is found; otherwise, for the first root `k` that holds a
/// pack, the result is that root when it is a pack itself, else that root
/// joined with the name-first of its children that are packs. Roots before
/// `k`, whatever they list, do not stop the search.
pub proof fn lemma_search_reaches_every_root(roots: Seq<RootScan>)
    ensures
        (forall|k: int| 0 <= k < roots.len() ==> !root_holds_pack(#[trigger] roots[k]))
            ==> first_pack_in_roots(roots) is None,
        forall|k: int|
            0 <= k < roots.len() && root_holds_pack(#[trigger] roots[k]) && (forall|m: int|
                0 <= m < k ==> !root_holds_pack(roots[m])) ==> {
                &&& roots[k].root_is_pack ==> first_pack_in_roots(roots) == Some(roots[k].root@)
                &&& !roots[k].root_is_pack ==> exists|name: Seq<char>|
                    is_first_pack_child(roots[k].children@, name) && first_pack_in_roots(roots)
                        == Some(join_path(roots[k].root@, name))
            },
    decreases roots.len(),
{
    if roots.len() > 0 {
        let r = roots[0];
        let rest = roots.drop_first();
        lemma_search_reaches_every_root(rest);
        lemma_least_pack_child(r.children@);
        assert forall|k: int| 0 < k < roots.len() implies #[trigger] roots[k] == rest[k - 1] by {}
        if !r.root_is_pack {
            match least_pack_child(r.children@) {
                Some(name) => {
                    assert(root_holds_pack(r));
                    assert(is_first_pack_child(r.children@, name));
                },
                None => {
                    assert(!root_holds_pack(r));
                    assert forall|k: int|
                        0 <= k < roots.len() && root_holds_pack(#[trigger] roots[k]) && (forall|m: int|
                            0 <= m < k ==> !root_holds_pack(roots[m])) implies {
                        &&& roots[k].root_is_pack ==> first_pack_in_roots(roots) == Some(roots[k].root@)
                        &&& !roots[k].root_is_pack ==> exists|name: Seq<char>|
                            is_first_pack_child(roots[k].children@, name) && first_pack_in_roots(roots)
                                == Some(join_path(roots[k].root@, name))
                    } by {
                        assert(k > 0);
                        assert(root_holds_pack(rest[k - 1]));
                        assert forall|m: int| 0 <= m < k - 1 implies !root_holds_pack(rest[m]) by {
                            assert(rest[m] == roots[m + 1]);
                        }
                    }
                    if forall|k: int| 0 <= k < roots.len() ==> !root_holds_pack(#[trigger] roots[k]) {
                        assert forall|k: int| 0 <= k < rest.len() implies !root_holds_pack(#[trigger] rest[k]) by {
                            assert(rest[k] == roots[k + 1]);
                        }
                    }
                },
            }
        } else {
            assert(root_holds_pack(r));
        }
    }
}

/// How many checks hold.
pub open spec fn holds_count(checks: Seq<PathCheck>) -> nat
    decreases checks.len(),
{
    if checks.len() == 0 {
        0
    } else if checks.last().holds {
        holds_count(checks.drop_last()) + 1
    } else {
        holds_count(checks.drop_last())
    }
}

/// Every candidate with `drive_c` is a prefix: the path of every check that
/// holds is kept, one path per such check.
pub proof fn lemma_every_checked_prefix_is_kept(checks: Seq<PathCheck>)
    ensures
        paths_that_hold(checks).len() == holds_count(checks),
        forall|k: int|
            0 <= k < checks.len() && (#[trigger] checks[k]).holds ==> paths_that_hold(checks).contains(
                checks[k].path@,
            ),
    decreases checks.len(),
{
    if checks.len() > 0 {
        let prev = checks.drop_last();
        lemma_every_checked_prefix_is_kept(prev);
        let a = paths_that_hold(prev);
        let all = paths_that_hold(checks);
        assert forall|k: int| 0 <= k < checks.len() && (#[trigger] checks[k]).holds implies all.contains(
            checks[k].path@,
        ) by {
            if k < prev.len() {
                assert(prev[k] == checks[k]);
                let w = choose|w: int| 0 <= w < a.len() && a[w] == prev[k].path@;
                assert(all[w] == a[w]);
            } else {
                assert(checks[k] == checks.last());
                assert(all[a.len() as int] == checks[k].path@);
            }
        }
    }
}

} // verus!
