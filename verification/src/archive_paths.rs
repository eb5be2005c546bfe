//! Fixing up archives that store Windows path separators.
//!
//! AeroNav/GNG packages are produced on Windows, and some archivers write the
//! entry names with `\` separators. Extracting such an archive on macOS/Linux
//! yields files literally named `LFBB\ICAO\LFBB.txt`. The functions here work
//! out which nested path each such file was meant to have, refusing any name
//! that would escape the extraction root; paths follow Unix conventions (`/`
//! is the separator, a leading `/` makes a path absolute).

use crate::text::{
    contains_char, join_path, join_path_str, lemma_split_on_pieces, lemma_trim_chars, split_on,
    split_str, trim, trim_str, views,
};
use vstd::prelude::*;

verus! {

/// A trimmed `\`-separated segment that is skipped: empty, or `.`.
pub open spec fn is_skipped_segment(t: Seq<char>) -> bool {
    t.len() == 0 || t == seq!['.']
}

/// A trimmed segment that refuses the whole name: `..`, or one ending in `:`
/// such as the drive letter `C:`.
pub open spec fn is_refused_segment(t: Seq<char>) -> bool {
    t == seq!['.', '.'] || (t.len() > 0 && t.last() == ':')
}

/// The trimmed segments that are kept, in order, or `None` when a segment
/// refuses the whole name.
pub open spec fn kept_segments(segments: Seq<Seq<char>>) -> Option<Seq<Seq<char>>>
    decreases segments.len(),
{
    if segments.len() == 0 {
        Some(Seq::empty())
    } else {
        match kept_segments(segments.drop_last()) {
            None => None,
            Some(kept) => {
                let t = trim(segments.last());
                if is_skipped_segment(t) {
                    Some(kept)
                } else if is_refused_segment(t) {
                    None
                } else {
                    Some(kept.push(t))
                }
            },
        }
    }
}

/// A `/`-separated part of a path that names a directory entry: not empty,
/// not `.`.
pub open spec fn is_named_part(p: Seq<char>) -> bool {
    p.len() > 0 && p != seq!['.']
}

/// The parts that name a directory entry, in order.
pub open spec fn named_parts(parts: Seq<Seq<char>>) -> Seq<Seq<char>>
    decreases parts.len(),
{
    if parts.len() == 0 {
        Seq::empty()
    } else if is_named_part(parts.last()) {
        named_parts(parts.drop_last()).push(parts.last())
    } else {
        named_parts(parts.drop_last())
    }
}

/// The entry names a piece contributes to a path.
pub open spec fn piece_components(piece: Seq<char>) -> Seq<Seq<char>> {
    named_parts(split_on(piece, '/'))
}

/// The entry names of the path made by joining `pieces`.
pub open spec fn pieces_components(pieces: Seq<Seq<char>>) -> Seq<Seq<char>>
    decreases pieces.len(),
{
    if pieces.len() == 0 {
        Seq::empty()
    } else {
        pieces_components(pieces.drop_last()) + piece_components(pieces.last())
    }
}

/// A piece that joins as plain relative text: it does not start at the root
/// and none of its `/`-separated parts is `..`.
pub open spec fn is_plain_piece(piece: Seq<char>) -> bool {
    &&& !(piece.len() > 0 && piece[0] == '/')
    &&& !split_on(piece, '/').contains(seq!['.', '.'])
}

/// A path whose text starts with `./` (or is `.`) has a leading current
/// directory component.
pub open spec fn starts_with_cur_dir(piece: Seq<char>) -> bool {
    piece.len() > 0 && piece[0] == '.' && (piece.len() == 1 || piece[1] == '/')
}

/// Joining `pieces` gives a relative path made of named entries only: no
/// root, no leading `.`, no `..`.
pub open spec fn is_plain_relative(pieces: Seq<Seq<char>>) -> bool {
    &&& (pieces.len() > 0 ==> !starts_with_cur_dir(pieces[0]))
    &&& forall|i: int| 0 <= i < pieces.len() ==> is_plain_piece(#[trigger] pieces[i])
}

/// The nested path a `\`-separated name stands for, as its entry names:
/// `None` when a segment is `..` or ends in `:`, when the path would not be a
/// plain relative path, or when it has fewer than two entries (a plain name).
pub open spec fn nested_components(name: Seq<char>) -> Option<Seq<Seq<char>>> {
    match kept_segments(split_on(name, '\\')) {
        None => None,
        Some(pieces) => if is_plain_relative(pieces) && pieces_components(pieces).len() >= 2 {
            Some(pieces_components(pieces))
        } else {
            None
        },
    }
}

/// The characters of each string of an optional vector.
pub open spec fn opt_views(o: Option<Vec<String>>) -> Option<Seq<Seq<char>>> {
    match o {
        Some(v) => Some(views(v@)),
        None => None,
    }
}

proof fn lemma_kept_segments_none_stays(segments: Seq<Seq<char>>, i: int)
    requires
        0 <= i <= segments.len(),
        kept_segments(segments.take(i)) is None,
    ensures
        kept_segments(segments) is None,
    decreases segments.len() - i,
{
    if i < segments.len() {
        assert(segments.take(i + 1).drop_last() =~= segments.take(i));
        lemma_kept_segments_none_stays(segments, i + 1);
    } else {
        assert(segments.take(i) =~= segments);
    }
}

fn is_dot(s: &str) -> (r: bool)
    ensures
        r == (s@ == seq!['.']),
{
    let n = s.unicode_len();
    if n == 1 && s.get_char(0) == '.' {
        assert(s@ =~= seq!['.']);
        true
    } else {
        false
    }
}

fn is_dot_dot(s: &str) -> (r: bool)
    ensures
        r == (s@ == seq!['.', '.']),
{
    let n = s.unicode_len();
    if n == 2 && s.get_char(0) == '.' && s.get_char(1) == '.' {
        assert(s@ =~= seq!['.', '.']);
        true
    } else {
        false
    }
}

/// The trimmed segments of a `\`-separated name that are kept, or `None`
/// when a segment refuses the whole name.
fn keep_segments(name: &str) -> (r: Option<Vec<String>>)
    ensures
        opt_views(r) == kept_segments(split_on(name@, '\\')),
{
    let segments = split_str(name, '\\');
    let ghost segs = views(segments@);
    let mut kept: Vec<String> = Vec::new();
    let mut i: usize = 0;
    assert(segs.take(0) =~= Seq::<Seq<char>>::empty());
    while i < segments.len()
        invariant
            segs == views(segments@),
            segs == split_on(name@, '\\'),
            0 <= i <= segments@.len(),
            kept_segments(segs.take(i as int)) == Some(views(kept@)),
        decreases segments@.len() - i,
    {
        let t = trim_str(segments[i].as_str());
        proof {
            assert(segs.take(i + 1).drop_last() =~= segs.take(i as int));
            assert(segs.take(i + 1).last() == segments@[i as int]@);
        }
        let n = t.unicode_len();
        if n == 0 || is_dot(t) {
            // Empty and `.` segments are skipped.
        } else if is_dot_dot(t) || t.get_char(n - 1) == ':' {
            proof {
                assert(is_refused_segment(t@));
                assert(kept_segments(segs.take(i + 1)) is None);
                lemma_kept_segments_none_stays(segs, i + 1);
            }
            return None;
        } else {
            let ghost old_kept = kept@;
            kept.push(t.to_owned());
            assert(views(kept@) =~= views(old_kept).push(t@));
        }
        i = i + 1;
    }
    assert(segs.take(segments@.len() as int) =~= segs);
    Some(kept)
}

/// The entry names of the path made by joining `pieces`, or `None` when that
/// path is not a plain relative path (it starts at the root or with `./`, or
/// holds a `..` part).
fn plain_components(pieces: &Vec<String>) -> (r: Option<Vec<String>>)
    ensures
        match r {
            Some(c) => is_plain_relative(views(pieces@)) && views(c@) == pieces_components(
                views(pieces@),
            ),
            None => !is_plain_relative(views(pieces@)),
        },
{
    let ghost ps = views(pieces@);
    if pieces.len() > 0 {
        let first = pieces[0].as_str();
        let n = first.unicode_len();
        if n > 0 && first.get_char(0) == '.' && (n == 1 || first.get_char(1) == '/') {
            assert(starts_with_cur_dir(ps[0]));
            return None;
        }
    }
    let mut comps: Vec<String> = Vec::new();
    let mut i: usize = 0;
    assert(ps.take(0) =~= Seq::<Seq<char>>::empty());
    while i < pieces.len()
        invariant
            ps == views(pieces@),
            ps.len() > 0 ==> !starts_with_cur_dir(ps[0]),
            0 <= i <= pieces@.len(),
            forall|k: int| 0 <= k < i ==> is_plain_piece(#[trigger] ps[k]),
            views(comps@) == pieces_components(ps.take(i as int)),
        decreases pieces@.len() - i,
    {
        let piece = pieces[i].as_str();
        assert(piece@ == ps[i as int]);
        if piece.unicode_len() > 0 && piece.get_char(0) == '/' {
            assert(!is_plain_piece(ps[i as int]));
            return None;
        }
        let parts = split_str(piece, '/');
        let ghost prefix = views(comps@);
        let ghost all_parts = views(parts@);
        let mut j: usize = 0;
        assert(all_parts.take(0) =~= Seq::<Seq<char>>::empty());
        assert(named_parts(all_parts.take(0)) =~= Seq::<Seq<char>>::empty());
        assert(prefix + Seq::<Seq<char>>::empty() =~= prefix);
        while j < parts.len()
            invariant
                ps == views(pieces@),
                0 <= i < ps.len(),
                all_parts == views(parts@),
                all_parts == split_on(piece@, '/'),
                piece@ == ps[i as int],
                0 <= j <= parts@.len(),
                forall|k: int| 0 <= k < j ==> all_parts[k] != seq!['.', '.'],
                views(comps@) == prefix + named_parts(all_parts.take(j as int)),
            decreases parts@.len() - j,
        {
            let part = parts[j].as_str();
            assert(part@ == all_parts[j as int]);
            assert(all_parts.take(j + 1).drop_last() =~= all_parts.take(j as int));
            if is_dot_dot(part) {
                assert(split_on(ps[i as int], '/').contains(seq!['.', '.']));
                return None;
            }
            if part.unicode_len() > 0 && !is_dot(part) {
                let ghost old_comps = comps@;
                comps.push(part.to_owned());
                assert(views(comps@) =~= views(old_comps).push(part@));
                assert(named_parts(all_parts.take(j + 1)) == named_parts(
                    all_parts.take(j as int),
                ).push(part@));
            }
            j = j + 1;
        }
        proof {
            assert(all_parts.take(parts@.len() as int) =~= all_parts);
            assert(!all_parts.contains(seq!['.', '.']));
            assert(ps.take(i + 1).drop_last() =~= ps.take(i as int));
            assert(ps.take(i + 1).last() == ps[i as int]);
        }
        i = i + 1;
    }
    assert(ps.take(pieces@.len() as int) =~= ps);
    Some(comps)
}

/// Split a `\`-separated name into the entry names of the nested path it
/// stands for, dropping empty and `.` segments. A name that would escape the
/// extraction root (a `..` segment, a drive letter such as `C:`, an absolute
/// path) is refused, and so is a plain name with fewer than two entries.
pub fn safe_nested_path(name: &str) -> (r: Option<Vec<String>>)
    ensures
        opt_views(r) == nested_components(name@),
{
    let kept = match keep_segments(name) {
        Some(kept) => kept,
        None => return None,
    };
    let comps = match plain_components(&kept) {
        Some(comps) => comps,
        None => return None,
    };
    if comps.len() < 2 {
        return None;
    }
    Some(comps)
}

/// A directory entry name that stays where it is put: not empty, not `.` or
/// `..`, and free of both `/` and `\`.
pub open spec fn is_plain_entry_name(p: Seq<char>) -> bool {
    &&& is_named_part(p)
    &&& p != seq!['.', '.']
    &&& !p.contains('/')
    &&& !p.contains('\\')
}

proof fn lemma_kept_segments_plain(segments: Seq<Seq<char>>)
    requires
        forall|i: int| 0 <= i < segments.len() ==> !(#[trigger] segments[i]).contains('\\'),
    ensures
        kept_segments(segments) matches Some(kept) ==> forall|i: int|
            0 <= i < kept.len() ==> !(#[trigger] kept[i]).contains('\\'),
    decreases segments.len(),
{
    if segments.len() > 0 {
        lemma_kept_segments_plain(segments.drop_last());
        let t = trim(segments.last());
        lemma_trim_chars(segments.last());
        if t.contains('\\') {
            let k = choose|k: int| 0 <= k < t.len() && t[k] == '\\';
            assert(segments.last().contains(t[k]));
            assert(segments[segments.len() - 1] == segments.last());
        }
    }
}

proof fn lemma_named_parts(parts: Seq<Seq<char>>)
    ensures
        forall|i: int| 0 <= i < named_parts(parts).len() ==> {
            &&& is_named_part(#[trigger] named_parts(parts)[i])
            &&& parts.contains(named_parts(parts)[i])
        },
    decreases parts.len(),
{
    if parts.len() > 0 {
        let prev = parts.drop_last();
        lemma_named_parts(prev);
        assert forall|i: int| 0 <= i < named_parts(parts).len() implies {
            &&& is_named_part(#[trigger] named_parts(parts)[i])
            &&& parts.contains(named_parts(parts)[i])
        } by {
            if i < named_parts(prev).len() {
                assert(named_parts(parts)[i] == named_parts(prev)[i]);
                let w = choose|w: int| 0 <= w < prev.len() && prev[w] == named_parts(prev)[i];
                assert(parts[w] == prev[w]);
            } else {
                assert(parts[parts.len() - 1] == parts.last());
            }
        }
    }
}

proof fn lemma_piece_components_plain(piece: Seq<char>)
    requires
        !piece.contains('\\'),
        is_plain_piece(piece),
    ensures
        forall|i: int| 0 <= i < piece_components(piece).len() ==> is_plain_entry_name(
            #[trigger] piece_components(piece)[i],
        ),
{
    let parts = split_on(piece, '/');
    lemma_split_on_pieces(piece, '/');
    lemma_named_parts(parts);
    assert forall|i: int| 0 <= i < piece_components(piece).len() implies is_plain_entry_name(
        #[trigger] piece_components(piece)[i],
    ) by {
        let p = piece_components(piece)[i];
        let w = choose|w: int| 0 <= w < parts.len() && parts[w] == p;
        if p.contains('/') {
            let k = choose|k: int| 0 <= k < p.len() && p[k] == '/';
            assert(parts[w][k] != '/');
        }
        if p.contains('\\') {
            let k = choose|k: int| 0 <= k < p.len() && p[k] == '\\';
            assert(piece.contains(parts[w][k]));
        }
    }
}

proof fn lemma_pieces_components_plain(pieces: Seq<Seq<char>>)
    requires
        forall|i: int| 0 <= i < pieces.len() ==> !(#[trigger] pieces[i]).contains('\\'),
        forall|i: int| 0 <= i < pieces.len() ==> is_plain_piece(#[trigger] pieces[i]),
    ensures
        forall|i: int| 0 <= i < pieces_components(pieces).len() ==> is_plain_entry_name(
            #[trigger] pieces_components(pieces)[i],
        ),
    decreases pieces.len(),
{
    if pieces.len() > 0 {
        let prev = pieces.drop_last();
        lemma_pieces_components_plain(prev);
        assert(pieces[pieces.len() - 1] == pieces.last());
        lemma_piece_components_plain(pieces.last());
        let a = pieces_components(prev);
        let b = piece_components(pieces.last());
        assert forall|i: int| 0 <= i < pieces_components(pieces).len() implies is_plain_entry_name(
            #[trigger] pieces_components(pieces)[i],
        ) by {
            if i < a.len() {
                assert(pieces_components(pieces)[i] == a[i]);
            } else {
                assert(pieces_components(pieces)[i] == b[i - a.len()]);
            }
        }
    }
}

/// A nested path never escapes the extraction root: when a name is split
/// into a nested path, that path has at least two entries and every entry is
/// a plain name (not empty, not `.` or `..`, free of `/` and `\`).
pub proof fn lemma_nested_path_stays_inside(name: Seq<char>)
    ensures
        nested_components(name) matches Some(c) ==> c.len() >= 2 && forall|i: int|
            0 <= i < c.len() ==> is_plain_entry_name(#[trigger] c[i]),
{
    let segments = split_on(name, '\\');
    lemma_split_on_pieces(name, '\\');
    assert forall|i: int| 0 <= i < segments.len() implies !(#[trigger] segments[i]).contains('\\') by {
        if segments[i].contains('\\') {
            let k = choose|k: int| 0 <= k < segments[i].len() && segments[i][k] == '\\';
            assert(segments[i][k] != '\\');
        }
    }
    lemma_kept_segments_plain(segments);
    if let Some(pieces) = kept_segments(segments) {
        if is_plain_relative(pieces) {
            lemma_pieces_components_plain(pieces);
        }
    }
}

/// A name without any separator is left alone: it is no nested path.
pub proof fn lemma_plain_name_is_left_alone(name: Seq<char>)
    requires
        !name.contains('\\'),
        !name.contains('/'),
    ensures
        nested_components(name) is None,
{
    lemma_split_without_separator(name, '\\');
    let segments = split_on(name, '\\');
    assert(segments.drop_last().len() == 0);
    assert(kept_segments(segments.drop_last()) == Some(Seq::<Seq<char>>::empty()));
    if let Some(pieces) = kept_segments(segments) {
        if pieces.len() == 1 {
            let t = trim(name);
            assert(pieces[0] == t);
            lemma_trim_chars(name);
            if t.contains('/') {
                let k = choose|k: int| 0 <= k < t.len() && t[k] == '/';
                assert(name.contains(t[k]));
            }
            lemma_split_without_separator(t, '/');
            assert(pieces.drop_last().len() == 0);
            assert(pieces.last() == t);
            assert(pieces_components(pieces.drop_last()) == Seq::<Seq<char>>::empty());
            assert(Seq::<Seq<char>>::empty() + piece_components(t) =~= piece_components(t));
            assert(pieces_components(pieces) == piece_components(t));
            assert(named_parts(seq![t].drop_last()) == Seq::<Seq<char>>::empty());
        } else {
            assert(pieces.len() == 0);
        }
    }
}

proof fn lemma_split_without_separator(s: Seq<char>, sep: char)
    requires
        !s.contains(sep),
    ensures
        split_on(s, sep) == seq![s],
    decreases s.len(),
{
    if s.len() > 0 {
        let t = s.drop_last();
        assert(!t.contains(sep)) by {
            if t.contains(sep) {
                let k = choose|k: int| 0 <= k < t.len() && t[k] == sep;
                assert(s[k] == sep);
            }
        }
        lemma_split_without_separator(t, sep);
        assert(s[s.len() - 1] == s.last());
        assert(t.push(s.last()) =~= s);
        assert(seq![t].update(0, t.push(s.last())) =~= seq![s]);
    } else {
        assert(s =~= Seq::<char>::empty());
    }
}

/// A file found under the extraction root: the path of its directory and
/// its file name.
pub struct ArchiveFile {
    pub parent: String,
    pub name: String,
}

/// A rename of the file at `from` to the nested path `to`.
pub struct PlannedMove {
    pub from: String,
    pub to: String,
}

/// The path text of `comps` below `base`, one entry after another.
pub open spec fn join_components(base: Seq<char>, comps: Seq<Seq<char>>) -> Seq<char>
    decreases comps.len(),
{
    if comps.len() == 0 {
        base
    } else {
        join_path(join_components(base, comps.drop_last()), comps.last())
    }
}

/// Where the file `name` in directory `parent` moves: nowhere when its name
/// holds no `\` or is refused, else from its current path to its nested one.
pub open spec fn planned_move(parent: Seq<char>, name: Seq<char>) -> Option<(Seq<char>, Seq<char>)> {
    if !name.contains('\\') {
        None
    } else {
        match nested_components(name) {
            None => None,
            Some(comps) => Some((join_path(parent, name), join_components(parent, comps))),
        }
    }
}

/// A file as the texts of its directory and of its name.
pub open spec fn file_views(files: Seq<ArchiveFile>) -> Seq<(Seq<char>, Seq<char>)> {
    files.map_values(|f: ArchiveFile| (f.parent@, f.name@))
}

/// The moves planned for a list of files (directory, name), in order.
pub open spec fn planned_moves(files: Seq<(Seq<char>, Seq<char>)>) -> Seq<(Seq<char>, Seq<char>)>
    decreases files.len(),
{
    if files.len() == 0 {
        Seq::empty()
    } else {
        match planned_move(files.last().0, files.last().1) {
            Some(m) => planned_moves(files.drop_last()).push(m),
            None => planned_moves(files.drop_last()),
        }
    }
}

/// The source and destination texts of planned moves.
pub open spec fn move_views(moves: Seq<PlannedMove>) -> Seq<(Seq<char>, Seq<char>)> {
    moves.map_values(|m: PlannedMove| (m.from@, m.to@))
}

fn join_components_str(base: &str, comps: &Vec<String>) -> (r: String)
    ensures
        r@ == join_components(base@, views(comps@)),
{
    let mut out = base.to_owned();
    let mut i: usize = 0;
    let ghost cs = views(comps@);
    assert(cs.take(0) =~= Seq::<Seq<char>>::empty());
    while i < comps.len()
        invariant
            cs == views(comps@),
            0 <= i <= comps@.len(),
            out@ == join_components(base@, cs.take(i as int)),
        decreases comps@.len() - i,
    {
        out = join_path_str(out.as_str(), comps[i].as_str());
        assert(cs.take(i + 1).drop_last() =~= cs.take(i as int));
        i = i + 1;
    }
    assert(cs.take(comps@.len() as int) =~= cs);
    out
}

/// The rename that puts a file whose name embeds `\` separators at its
/// nested path below its own directory; `None` for plain and refused names.
pub fn plan_nested_move(file: &ArchiveFile) -> (r: Option<PlannedMove>)
    ensures
        match r {
            Some(m) => planned_move(file.parent@, file.name@) == Some((m.from@, m.to@)),
            None => planned_move(file.parent@, file.name@) is None,
        },
{
    if !contains_char(file.name.as_str(), '\\') {
        return None;
    }
    let comps = match safe_nested_path(file.name.as_str()) {
        Some(comps) => comps,
        None => return None,
    };
    let from = join_path_str(file.parent.as_str(), file.name.as_str());
    let to = join_components_str(file.parent.as_str(), &comps);
    Some(PlannedMove { from, to })
}

/// The renames for every file under an extraction root whose name embeds
/// `\` separators, in the order the files are given. Files with plain or
/// refused names are left out.
pub fn plan_separator_moves(files: &Vec<ArchiveFile>) -> (r: Vec<PlannedMove>)
    ensures
        move_views(r@) == planned_moves(file_views(files@)),
{
    let ghost fv = file_views(files@);
    let mut moves: Vec<PlannedMove> = Vec::new();
    let mut i: usize = 0;
    assert(fv.take(0) =~= Seq::<(Seq<char>, Seq<char>)>::empty());
    while i < files.len()
        invariant
            fv == file_views(files@),
            0 <= i <= files@.len(),
            move_views(moves@) == planned_moves(fv.take(i as int)),
        decreases files@.len() - i,
    {
        assert(fv.take(i + 1).drop_last() =~= fv.take(i as int));
        assert(fv.take(i + 1).last() == (files@[i as int].parent@, files@[i as int].name@));
        match plan_nested_move(&files[i]) {
            Some(m) => {
                let ghost old_moves = moves@;
                moves.push(m);
                assert(move_views(moves@) =~= move_views(old_moves).push((m.from@, m.to@)));
            },
            None => {},
        }
        i = i + 1;
    }
    assert(fv.take(files@.len() as int) =~= fv);
    moves
}

/// A moved file is not moved again: the file name at the destination holds
/// no `\`, so a second pass over the extraction root plans nothing for it.
pub proof fn lemma_moved_file_stays(parent: Seq<char>, name: Seq<char>, new_parent: Seq<char>)
    requires
        planned_move(parent, name) is Some,
    ensures
        nested_components(name) matches Some(comps) && planned_move(new_parent, comps.last())
            is None,
{
    lemma_nested_path_stays_inside(name);
    let comps = nested_components(name).unwrap();
    assert(is_plain_entry_name(comps[comps.len() - 1]));
}

/// What to do with the next planned move.
pub enum MoveAction {
    /// Rename the file at `from` to `to`.
    Rename { from: String, to: String },
    /// Another file already holds `to`: keep the first and leave this one
    /// where it is rather than lose data.
    KeepExisting { from: String, to: String },
}

/// The execution of a list of planned moves, one decision at a time: the
/// caller asks for the next destination, checks whether something already
/// exists there, and is told whether to rename.
pub struct MoveRun {
    moves: Vec<PlannedMove>,
    next: usize,
    moved: usize,
}

impl MoveRun {
    #[verifier::type_invariant]
    spec fn inv(self) -> bool {
        self.next <= self.moves@.len() && self.moved <= self.next
    }

    /// The moves not decided yet, in order.
    pub closed spec fn remaining(&self) -> Seq<(Seq<char>, Seq<char>)> {
        move_views(self.moves@).skip(self.next as int)
    }

    /// How many renames were decided so far.
    pub closed spec fn moved_count(&self) -> nat {
        self.moved as nat
    }

    pub fn new(moves: Vec<PlannedMove>) -> (r: MoveRun)
        ensures
            r.remaining() == move_views(moves@),
            r.moved_count() == 0,
    {
        let r = MoveRun { moves, next: 0, moved: 0 };
        assert(move_views(r.moves@).skip(0) =~= move_views(r.moves@));
        r
    }

    /// The destination of the next move to decide, if any.
    pub fn next_destination(&self) -> (r: Option<String>)
        ensures
            match r {
                Some(d) => self.remaining().len() > 0 && d@ == self.remaining()[0].1,
                None => self.remaining().len() == 0,
            },
    {
        proof {
            use_type_invariant(self);
        }
        if self.next < self.moves.len() {
            let to = self.moves[self.next].to.as_str().to_owned();
            Some(to)
        } else {
            None
        }
    }

    /// Decide the next move: rename it unless its destination already exists.
    pub fn decide(&mut self, destination_exists: bool) -> (r: Option<MoveAction>)
        ensures
            old(self).remaining().len() == 0 ==> r is None && final(self).remaining() == old(
                self,
            ).remaining() && final(self).moved_count() == old(self).moved_count(),
            old(self).remaining().len() > 0 ==> {
                &&& final(self).remaining() == old(self).remaining().drop_first()
                &&& match r {
                    Some(MoveAction::Rename { from, to }) => !destination_exists && (from@, to@)
                        == old(self).remaining()[0] && final(self).moved_count() == old(
                        self,
                    ).moved_count() + 1,
                    Some(MoveAction::KeepExisting { from, to }) => destination_exists && (
                    from@, to@) == old(self).remaining()[0] && final(self).moved_count() == old(
                        self,
                    ).moved_count(),
                    None => false,
                }
            },
    {
        proof {
            use_type_invariant(&*self);
        }
        if self.next >= self.moves.len() {
            return None;
        }
        let from = self.moves[self.next].from.as_str().to_owned();
        let to = self.moves[self.next].to.as_str().to_owned();
        let ghost before = move_views(self.moves@);
        assert(before.skip(self.next + 1) =~= before.skip(self.next as int).drop_first());
        self.next = self.next + 1;
        if destination_exists {
            Some(MoveAction::KeepExisting { from, to })
        } else {
            self.moved = self.moved + 1;
            Some(MoveAction::Rename { from, to })
        }
    }

    /// How many renames were decided.
    pub fn moved(&self) -> (r: usize)
        ensures
            r == self.moved_count(),
    {
        self.moved
    }
}

/// Where a file whose move was carried out sits afterwards: the directory
/// and the name its nested path ends in.
pub open spec fn moved_location(file: (Seq<char>, Seq<char>)) -> (Seq<char>, Seq<char>) {
    match nested_components(file.1) {
        Some(comps) => (join_components(file.0, comps.drop_last()), comps.last()),
        None => file,
    }
}

/// The files (directory, name) after a run over `files`, where `existed[k]`
/// tells whether the destination of the `k`-th planned move already existed
/// when it was decided: a file whose move was carried out sits at its nested
/// path, every other file stays where it was.
pub open spec fn files_after_run(files: Seq<(Seq<char>, Seq<char>)>, existed: Seq<bool>) -> Seq<
    (Seq<char>, Seq<char>),
>
    decreases files.len(),
{
    if files.len() == 0 {
        Seq::empty()
    } else {
        let prev = files.drop_last();
        let file = files.last();
        let now = if planned_move(file.0, file.1) is Some && !existed[planned_moves(prev).len() as int] {
            moved_location(file)
        } else {
            file
        };
        files_after_run(prev, existed).push(now)
    }
}

/// The planned moves of `files` whose destination already existed when they
/// were decided, in order: the files those moves would have moved stayed
/// where they were.
pub open spec fn kept_moves(files: Seq<(Seq<char>, Seq<char>)>, existed: Seq<bool>) -> Seq<
    (Seq<char>, Seq<char>),
>
    decreases files.len(),
{
    if files.len() == 0 {
        Seq::empty()
    } else {
        let prev = files.drop_last();
        let file = files.last();
        match planned_move(file.0, file.1) {
            Some(m) => if existed[planned_moves(prev).len() as int] {
                kept_moves(prev, existed).push(m)
            } else {
                kept_moves(prev, existed)
            },
            None => kept_moves(prev, existed),
        }
    }
}

/// A moved file sits exactly at the destination that was planned for it.
pub proof fn lemma_moved_location_is_destination(file: (Seq<char>, Seq<char>))
    requires
        planned_move(file.0, file.1) is Some,
    ensures
        join_path(moved_location(file).0, moved_location(file).1) == planned_move(
            file.0,
            file.1,
        ).unwrap().1,
{
    lemma_nested_path_stays_inside(file.1);
}

proof fn lemma_planned_moves_grow(files: Seq<(Seq<char>, Seq<char>)>)
    requires
        files.len() > 0,
    ensures
        planned_moves(files.drop_last()).len() <= planned_moves(files).len(),
{
}

proof fn lemma_second_pass(files: Seq<(Seq<char>, Seq<char>)>, existed: Seq<bool>)
    requires
        existed.len() >= planned_moves(files).len(),
    ensures
        planned_moves(files_after_run(files, existed)) == kept_moves(files, existed),
    decreases files.len(),
{
    if files.len() > 0 {
        let prev = files.drop_last();
        let file = files.last();
        lemma_planned_moves_grow(files);
        lemma_second_pass(prev, existed);
        let after = files_after_run(prev, existed);
        let k = planned_moves(prev).len() as int;
        if planned_move(file.0, file.1) is Some && !existed[k] {
            lemma_nested_path_stays_inside(file.1);
            let comps = nested_components(file.1).unwrap();
            assert(is_plain_entry_name(comps[comps.len() - 1]));
            assert(planned_move(moved_location(file).0, moved_location(file).1) is None);
        }
        assert(files_after_run(files, existed).drop_last() == after);
    }
}

/// Running twice moves nothing the second time. Let `existed[k]` tell, for
/// the `k`-th move planned over `files`, whether its destination already
/// existed when it was decided: the moves carried out leave their files at
/// their nested paths, whose names hold no `\`, and a second planning pass
/// over the files as they then lie plans exactly the moves that were kept
/// back because their destination existed. With the tree unchanged since,
/// every one of those destinations still exists, so `MoveRun::decide` keeps
/// each file where it is and the second run renames nothing.
pub proof fn lemma_second_pass_plans_only_kept_moves(
    files: Seq<(Seq<char>, Seq<char>)>,
    existed: Seq<bool>,
)
    requires
        existed.len() == planned_moves(files).len(),
    ensures
        planned_moves(files_after_run(files, existed)) == kept_moves(files, existed),
        forall|k: int|
            0 <= k < existed.len() && existed[k] ==> kept_moves(files, existed).contains(
                #[trigger] planned_moves(files)[k],
            ),
        forall|i: int|
            0 <= i < kept_moves(files, existed).len() ==> exists|k: int|
                0 <= k < existed.len() && existed[k] && #[trigger] kept_moves(files, existed)[i]
                    == planned_moves(files)[k],
{
    lemma_second_pass(files, existed);
    lemma_kept_moves_are_kept(files, existed);
}

#[verifier::spinoff_prover]
proof fn lemma_kept_moves_are_kept(files: Seq<(Seq<char>, Seq<char>)>, existed: Seq<bool>)
    requires
        existed.len() >= planned_moves(files).len(),
    ensures
        forall|k: int|
            0 <= k < planned_moves(files).len() && existed[k] ==> kept_moves(files, existed).contains(
                #[trigger] planned_moves(files)[k],
            ),
        forall|i: int|
            0 <= i < kept_moves(files, existed).len() ==> exists|k: int|
                0 <= k < planned_moves(files).len() && existed[k] && #[trigger] kept_moves(
                    files,
                    existed,
                )[i] == planned_moves(files)[k],
    decreases files.len(),
{
    if files.len() > 0 {
        let prev = files.drop_last();
        let file = files.last();
        lemma_planned_moves_grow(files);
        lemma_kept_moves_are_kept(prev, existed);
        let pm = planned_moves(files);
        let pp = planned_moves(prev);
        let km = kept_moves(files, existed);
        let kp = kept_moves(prev, existed);
        let k0 = pp.len() as int;
        assert forall|k: int| 0 <= k < pm.len() && existed[k] implies km.contains(
            #[trigger] pm[k],
        ) by {
            if k < k0 {
                assert(pm[k] == pp[k]);
                assert(kp.contains(pp[k]));
                let w = choose|w: int| 0 <= w < kp.len() && kp[w] == pp[k];
                assert(km[w] == kp[w]);
            } else {
                assert(km[km.len() - 1] == pm[k]);
            }
        }
        assert forall|i: int| 0 <= i < km.len() implies exists|k: int|
            0 <= k < pm.len() && existed[k] && #[trigger] km[i] == pm[k] by {
            if i < kp.len() {
                assert(km[i] == kp[i]);
                let k = choose|k: int| 0 <= k < pp.len() && existed[k] && kp[i] == pp[k];
                assert(pm[k] == pp[k]);
            } else {
                assert(km[i] == pm[k0]);
            }
        }
    }
}

/// Every segment of a sequence, trimmed.
pub open spec fn trimmed_segments(segments: Seq<Seq<char>>) -> Seq<Seq<char>> {
    segments.map_values(|t: Seq<char>| trim(t))
}

/// A trimmed segment that names an entry by itself: not empty, not `.` or
/// `..`, free of `/`, and not ending in `:`.
pub open spec fn is_plain_segment(t: Seq<char>) -> bool {
    &&& t.len() > 0
    &&& t != seq!['.']
    &&& t != seq!['.', '.']
    &&& !t.contains('/')
    &&& t.last() != ':'
}

/// A name is refused at the segment stage exactly when one of its trimmed
/// segments is `..` or ends in `:`; every other segment is kept or, when it
/// is empty or `.`, skipped.
pub proof fn lemma_segments_refused_only_for_dot_dot_or_colon(segments: Seq<Seq<char>>)
    ensures
        kept_segments(segments) is None <==> exists|i: int|
            0 <= i < segments.len() && (trim(#[trigger] segments[i]) == seq!['.', '.'] || (trim(
                segments[i],
            ).len() > 0 && trim(segments[i]).last() == ':')),
    decreases segments.len(),
{
    if segments.len() > 0 {
        let prev = segments.drop_last();
        lemma_segments_refused_only_for_dot_dot_or_colon(prev);
        assert forall|i: int| 0 <= i < prev.len() implies #[trigger] prev[i] == segments[i] by {}
        assert(segments[segments.len() - 1] == segments.last());
        let t = trim(segments.last());
        if t.len() == 0 || t == seq!['.'] {
            assert(!(t == seq!['.', '.'])) by {
                if t == seq!['.', '.'] {
                    assert(t.len() == 2);
                }
            }
        }
        if exists|i: int|
            0 <= i < segments.len() && (trim(#[trigger] segments[i]) == seq!['.', '.'] || (trim(
                segments[i],
            ).len() > 0 && trim(segments[i]).last() == ':')) {
            let i = choose|i: int|
                0 <= i < segments.len() && (trim(#[trigger] segments[i]) == seq!['.', '.'] || (trim(
                    segments[i],
                ).len() > 0 && trim(segments[i]).last() == ':'));
            if i < prev.len() {
                assert(prev[i] == segments[i]);
            }
        }
    }
}

proof fn lemma_plain_segments_kept(segments: Seq<Seq<char>>)
    requires
        forall|i: int| 0 <= i < segments.len() ==> is_plain_segment(trim(#[trigger] segments[i])),
    ensures
        kept_segments(segments) == Some(trimmed_segments(segments)),
    decreases segments.len(),
{
    if segments.len() > 0 {
        let prev = segments.drop_last();
        assert forall|i: int| 0 <= i < prev.len() implies is_plain_segment(trim(#[trigger] prev[i])) by {
            assert(prev[i] == segments[i]);
        }
        lemma_plain_segments_kept(prev);
        assert(segments[segments.len() - 1] == segments.last());
        let t = trim(segments.last());
        assert(is_plain_segment(t));
        if t.len() == 1 && t[0] == '.' {
            assert(t =~= seq!['.']);
        }
        assert(trimmed_segments(segments) =~= trimmed_segments(prev).push(t));
    }
}

proof fn lemma_plain_pieces_are_components(pieces: Seq<Seq<char>>)
    requires
        forall|i: int| 0 <= i < pieces.len() ==> is_plain_segment(#[trigger] pieces[i]),
    ensures
        is_plain_relative(pieces),
        pieces_components(pieces) == pieces,
    decreases pieces.len(),
{
    if pieces.len() > 0 {
        let prev = pieces.drop_last();
        assert forall|i: int| 0 <= i < prev.len() implies is_plain_segment(#[trigger] prev[i]) by {
            assert(prev[i] == pieces[i]);
        }
        lemma_plain_pieces_are_components(prev);
        let t = pieces.last();
        assert(pieces[pieces.len() - 1] == t);
        lemma_split_without_separator(t, '/');
        assert(named_parts(seq![t].drop_last()) == Seq::<Seq<char>>::empty());
        assert(named_parts(seq![t]) == seq![t]);
        assert(pieces_components(pieces) =~= pieces);
        assert forall|i: int| 0 <= i < pieces.len() implies is_plain_piece(#[trigger] pieces[i]) by {
            let p = pieces[i];
            assert(is_plain_segment(p));
            if p[0] == '/' {
                assert(p.contains('/'));
            }
            lemma_split_without_separator(p, '/');
            if seq![p].contains(seq!['.', '.']) {
                assert(seq![p][0] == p);
            }
        }
        let f = pieces[0];
        assert(is_plain_segment(f));
        if f[0] == '.' {
            if f.len() == 1 {
                assert(f =~= seq!['.']);
            } else {
                assert(f[1] != '/') by {
                    if f[1] == '/' {
                        assert(f.contains('/'));
                    }
                }
            }
        }
    }
}

/// A name whose `\`-separated segments, once trimmed, all name an entry by
/// themselves (not empty, not `.` or `..`, free of `/`, not ending in `:`),
/// and which has at least two of them, is split into exactly those trimmed
/// segments, in order: nothing else refuses it.
pub proof fn lemma_plain_segments_are_the_nested_path(name: Seq<char>)
    requires
        split_on(name, '\\').len() >= 2,
        forall|i: int|
            0 <= i < split_on(name, '\\').len() ==> is_plain_segment(
                trim(#[trigger] split_on(name, '\\')[i]),
            ),
    ensures
        nested_components(name) == Some(trimmed_segments(split_on(name, '\\'))),
{
    let segments = split_on(name, '\\');
    lemma_plain_segments_kept(segments);
    let t = trimmed_segments(segments);
    assert forall|i: int| 0 <= i < t.len() implies is_plain_segment(#[trigger] t[i]) by {
        assert(t[i] == trim(segments[i]));
    }
    lemma_plain_pieces_are_components(t);
}

/// How many files have a planned move.
pub open spec fn movable_count(files: Seq<(Seq<char>, Seq<char>)>) -> nat
    decreases files.len(),
{
    if files.len() == 0 {
        0
    } else if planned_move(files.last().0, files.last().1) is Some {
        movable_count(files.drop_last()) + 1
    } else {
        movable_count(files.drop_last())
    }
}

/// Every file whose name holds a `\` and splits into a nested path gets its
/// move, from `parent/name` to its nested path below `parent`, and no other
/// move is planned: one move per such file, in the files' order.
pub proof fn lemma_every_nested_file_is_planned(files: Seq<(Seq<char>, Seq<char>)>)
    ensures
        planned_moves(files).len() == movable_count(files),
        forall|i: int|
            0 <= i < files.len() && (#[trigger] files[i]).1.contains('\\') && nested_components(
                files[i].1,
            ) is Some ==> planned_moves(files).contains(
                (
                    join_path(files[i].0, files[i].1),
                    join_components(files[i].0, nested_components(files[i].1).unwrap()),
                ),
            ),
        forall|k: int|
            #![trigger planned_moves(files)[k]]
            0 <= k < planned_moves(files).len() ==> exists|i: int|
                0 <= i < files.len() && (#[trigger] files[i]).1.contains('\\') && nested_components(
                    files[i].1,
                ) is Some && planned_moves(files)[k] == (
                    join_path(files[i].0, files[i].1),
                    join_components(files[i].0, nested_components(files[i].1).unwrap()),
                ),
    decreases files.len(),
{
    if files.len() > 0 {
        let prev = files.drop_last();
        lemma_every_nested_file_is_planned(prev);
        let a = planned_moves(prev);
        let all = planned_moves(files);
        assert(files[files.len() - 1] == files.last());
        assert forall|i: int|
            0 <= i < files.len() && (#[trigger] files[i]).1.contains('\\') && nested_components(
                files[i].1,
            ) is Some implies all.contains(
            (
                join_path(files[i].0, files[i].1),
                join_components(files[i].0, nested_components(files[i].1).unwrap()),
            ),
        ) by {
            if i < prev.len() {
                assert(prev[i] == files[i]);
                let m = (
                    join_path(files[i].0, files[i].1),
                    join_components(files[i].0, nested_components(files[i].1).unwrap()),
                );
                let w = choose|w: int| 0 <= w < a.len() && a[w] == m;
                assert(all[w] == a[w]);
            } else {
                assert(all[a.len() as int] == planned_move(files[i].0, files[i].1).unwrap());
            }
        }
        assert forall|k: int| #![trigger all[k]] 0 <= k < all.len() implies exists|i: int|
            0 <= i < files.len() && (#[trigger] files[i]).1.contains('\\') && nested_components(
                files[i].1,
            ) is Some && all[k] == (
                join_path(files[i].0, files[i].1),
                join_components(files[i].0, nested_components(files[i].1).unwrap()),
            ) by {
            if k < a.len() {
                assert(all[k] == a[k]);
                assert(exists|i: int|
                    0 <= i < prev.len() && (#[trigger] prev[i]).1.contains('\\') && nested_components(
                        prev[i].1,
                    ) is Some && a[k] == (
                        join_path(prev[i].0, prev[i].1),
                        join_components(prev[i].0, nested_components(prev[i].1).unwrap()),
                    ));
                let i = choose|i: int|
                    0 <= i < prev.len() && (#[trigger] prev[i]).1.contains('\\') && nested_components(
                        prev[i].1,
                    ) is Some && a[k] == (
                        join_path(prev[i].0, prev[i].1),
                        join_components(prev[i].0, nested_components(prev[i].1).unwrap()),
                    );
                assert(prev[i] == files[i]);
                assert(files[i].1.contains('\\'));
                assert(all[k] == (
                    join_path(files[i].0, files[i].1),
                    join_components(files[i].0, nested_components(files[i].1).unwrap()),
                ));
            } else {
                let i = files.len() - 1;
                assert(files[i] == files.last());
                assert(k == a.len());
                assert(planned_move(files[i].0, files[i].1) is Some);
                assert(files[i].1.contains('\\'));
                assert(nested_components(files[i].1) is Some);
                assert(all[k] == (
                    join_path(files[i].0, files[i].1),
                    join_components(files[i].0, nested_components(files[i].1).unwrap()),
                ));
            }
        }
    }
}

} // verus!
