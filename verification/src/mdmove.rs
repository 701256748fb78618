//! Moving Markdown files: which file goes where, and what becomes of the
//! links that point at a moved file or stand in one.

use crate::paths::{
    chain_names, chars_of, file_name, file_name_of, is_absolute, lemma_all_names_chain,
    lemma_name_at, lemma_names_are_names, lemma_normalized_names, lemma_rendered_normal, names,
    names_start_with, normal_form, normalize_names, normalize_path, normalized,
    path_starts_with, place_in, placed_in, plain, relative_form, render, rendered, same_chars,
    split_names, starts_at_root, text_of,
};
use crate::links::{
    answers_of, lemma_rewritten_weaken, may_decide, replace_links, rewritten, RewriteError,
};
use crate::paths::{extension, extension_of, parent, parent_of};
use std::borrow::Cow;
use vstd::prelude::*;
use vstd::string::*;

verus! {

/// Where a path lies after one move: the names behind the moved source are
/// put behind the destination, and the result is normalised.
pub open spec fn moved(path: Seq<char>, from: Seq<char>, to: Seq<char>) -> Seq<char> {
    rendered(
        is_absolute(to),
        normal_form(names(to) + names(path).skip(names(from).len() as int)),
    )
}

/// Where a path lies after the moves: the first move whose source the path
/// starts with carries it along. A path that no move touches has no new
/// place.
pub open spec fn after_move(moves: Seq<(Seq<char>, Seq<char>)>, path: Seq<char>) -> Option<
    Seq<char>,
>
    decreases moves.len(),
{
    if moves.len() == 0 {
        None
    } else if path_starts_with(path, moves.first().0) {
        Some(moved(path, moves.first().0, moves.first().1))
    } else {
        after_move(moves.drop_first(), path)
    }
}

/// Where the move of `from` is recorded in the list, or the length of the
/// list where it is not.
pub open spec fn position_of(moves: Seq<(Seq<char>, Seq<char>)>, from: Seq<char>) -> int
    decreases moves.len(),
{
    if moves.len() == 0 {
        0
    } else if moves.first().0 == from {
        0
    } else {
        1 + position_of(moves.drop_first(), from)
    }
}

/// The list with the move of `from` to `to` recorded: in place of an
/// earlier move of `from`, or at the end.
pub open spec fn recorded(
    moves: Seq<(Seq<char>, Seq<char>)>,
    from: Seq<char>,
    to: Seq<char>,
) -> Seq<(Seq<char>, Seq<char>)> {
    let at = position_of(moves, from);
    if at < moves.len() {
        moves.update(at, (from, to))
    } else {
        moves.push((from, to))
    }
}

/// No source is recorded twice.
pub open spec fn distinct_sources(moves: Seq<(Seq<char>, Seq<char>)>) -> bool {
    forall|i: int, j: int|
        0 <= i < j < moves.len() ==> (#[trigger] moves[i]).0 != (#[trigger] moves[j]).0
}

/// `position_of` finds the entry of a source, and only where there is one.
pub proof fn lemma_position_of(moves: Seq<(Seq<char>, Seq<char>)>, from: Seq<char>)
    ensures
        0 <= position_of(moves, from) <= moves.len(),
        position_of(moves, from) < moves.len() ==> moves[position_of(moves, from)].0 == from,
        forall|i: int| 0 <= i < position_of(moves, from) ==> (#[trigger] moves[i]).0 != from,
    decreases moves.len(),
{
    if moves.len() > 0 && moves.first().0 != from {
        let rest = moves.drop_first();
        lemma_position_of(rest, from);
        assert forall|i: int| 0 <= i < position_of(moves, from) implies (#[trigger] moves[i]).0
            != from by {
            if i > 0 {
                assert(rest[i - 1] == moves[i]);
            }
        }
    }
}

/// Recording a move keeps the sources distinct.
pub proof fn lemma_recorded_distinct(
    moves: Seq<(Seq<char>, Seq<char>)>,
    from: Seq<char>,
    to: Seq<char>,
)
    requires
        distinct_sources(moves),
    ensures
        distinct_sources(recorded(moves, from, to)),
{
    lemma_position_of(moves, from);
    let at = position_of(moves, from);
    let after = recorded(moves, from, to);
    assert forall|i: int, j: int| 0 <= i < j < after.len() implies (#[trigger] after[i]).0 != (
    #[trigger] after[j]).0 by {
        if at < moves.len() {
            if i == at {
                assert(moves[at].0 != moves[j].0);
            } else if j == at {
                assert(moves[i].0 != moves[at].0);
            } else {
                assert(moves[i].0 != moves[j].0);
            }
        } else {
            if j < moves.len() {
                assert(moves[i].0 != moves[j].0);
            } else {
                assert(moves[i].0 != from);
            }
        }
    }
}

/// The list with the first `count` of the moves recorded one after the
/// other.
pub open spec fn recorded_all(pairs: Seq<(Seq<char>, Seq<char>)>, count: nat) -> Seq<
    (Seq<char>, Seq<char>),
>
    decreases count,
{
    if count == 0 || count > pairs.len() {
        Seq::empty()
    } else {
        recorded(recorded_all(pairs, (count - 1) as nat), pairs[count - 1].0, pairs[count - 1].1)
    }
}

/// The moves of one run: from each source path to its destination. A list
/// that is filled by [`MoveList::insert`] records each source once; what is
/// recorded first is looked up first.
#[derive(Debug)]
pub struct MoveList {
    moves: Vec<(String, String)>,
}

impl MoveList {
    /// The recorded moves, each as source and destination.
    pub closed spec fn view(&self) -> Seq<(Seq<char>, Seq<char>)> {
        self.moves.deep_view()
    }

    /// A list without moves.
    pub fn new() -> (list: MoveList)
        ensures
            list@ == Seq::<(Seq<char>, Seq<char>)>::empty(),
    {
        let list = MoveList { moves: Vec::new() };
        proof {
            assert(list.moves.deep_view() =~= Seq::<(Seq<char>, Seq<char>)>::empty());
        }
        list
    }

    /// The list of these moves, recorded one after the other: a later move
    /// of a source replaces an earlier one.
    pub fn from_iter(pairs: Vec<(String, String)>) -> (list: MoveList)
        ensures
            list@ == recorded_all(pairs.deep_view(), pairs.len() as nat),
            distinct_sources(list@),
    {
        let mut list = MoveList::new();
        let mut i: usize = 0;
        while i < pairs.len()
            invariant
                0 <= i <= pairs.len(),
                list@ == recorded_all(pairs.deep_view(), i as nat),
                distinct_sources(list@),
            decreases pairs.len() - i,
        {
            proof {
                assert(pairs.deep_view()[i + 1 - 1] == (pairs[i as int].0@, pairs[i as int].1@));
            }
            list.insert(pairs[i].0.clone(), pairs[i].1.clone());
            i = i + 1;
        }
        list
    }

    /// How many moves are recorded.
    pub fn len(&self) -> (n: usize)
        ensures
            n == self@.len(),
    {
        self.moves.len()
    }

    /// The `i`th recorded move: its source and its destination.
    pub fn get(&self, i: usize) -> (entry: (&str, &str))
        requires
            i < self@.len(),
        ensures
            entry.0@ == self@[i as int].0,
            entry.1@ == self@[i as int].1,
    {
        (self.moves[i].0.as_str(), self.moves[i].1.as_str())
    }

    /// Records the move of `from` to `to`. An earlier move of the same
    /// source is replaced.
    pub fn insert(&mut self, from: String, to: String)
        ensures
            final(self)@ == recorded(old(self)@, from@, to@),
            distinct_sources(old(self)@) ==> distinct_sources(final(self)@),
    {
        proof {
            lemma_position_of(self@, from@);
            if distinct_sources(self@) {
                lemma_recorded_distinct(self@, from@, to@);
            }
        }
        let ghost before = self.moves.deep_view();
        let mut at: usize = 0;
        proof {
            assert(before.skip(0) =~= before);
        }
        while at < self.moves.len() && self.moves[at].0 != from
            invariant
                0 <= at <= self.moves.len(),
                before == self.moves.deep_view(),
                position_of(before, from@) == at + position_of(before.skip(at as int), from@),
            decreases self.moves.len() - at,
        {
            proof {
                assert(before.skip(at as int).first() == before[at as int]);
                assert(before.skip(at as int).drop_first() =~= before.skip(at + 1));
            }
            at = at + 1;
        }
        proof {
            if at < self.moves.len() {
                assert(before.skip(at as int).first() == before[at as int]);
            }
            assert(position_of(before, from@) == at);
        }
        if at < self.moves.len() {
            self.moves.set(at, (from, to));
            proof {
                assert(self.moves.deep_view() =~= before.update(at as int, (from@, to@)));
            }
        } else {
            self.moves.push((from, to));
            proof {
                assert(self.moves.deep_view() =~= before.push((from@, to@)));
            }
        }
    }

    /// Where `path` lies after the moves, if a move touches it: the path
    /// starts with the source of a move, and goes where that source goes,
    /// the rest of its names behind it.
    pub fn get_path_after_move(&self, path: &str) -> (place: Option<String>)
        ensures
            place.deep_view() == after_move(self@, path@),
    {
        let chars = chars_of(path);
        let absolute = starts_at_root(&chars);
        let path_names = split_names(&chars);
        let ghost all = self@;
        let mut i: usize = 0;
        proof {
            assert(all.skip(0) =~= all);
        }
        while i < self.moves.len()
            invariant
                0 <= i <= self.moves.len(),
                all == self.moves.deep_view(),
                chars@ == path@,
                absolute == is_absolute(path@),
                path_names.deep_view() == names(path@),
                after_move(all, path@) == after_move(all.skip(i as int), path@),
            decreases self.moves.len() - i,
        {
            proof {
                assert(all.skip(i as int).first() == all[i as int]);
                assert(all.skip(i as int).drop_first() =~= all.skip(i + 1));
            }
            let from = chars_of(self.moves[i].0.as_str());
            let from_names = split_names(&from);
            if starts_at_root(&from) == absolute && names_start_with(&path_names, &from_names) {
                let to = chars_of(self.moves[i].1.as_str());
                let joined = chain_names(&split_names(&to), &path_names, from_names.len());
                let place = text_of(&render(starts_at_root(&to), &normalize_names(&joined)));
                return Some(place);
            }
            i = i + 1;
        }
        None
    }
}

impl Default for MoveList {
    fn default() -> (list: MoveList)
        ensures
            list@ == Seq::<(Seq<char>, Seq<char>)>::empty(),
    {
        MoveList::new()
    }
}

/// A path that the moves carry along lies at a normalised place.
pub proof fn lemma_after_move_normal(moves: Seq<(Seq<char>, Seq<char>)>, path: Seq<char>)
    ensures
        after_move(moves, path) matches Some(place) ==> {
            &&& normalized(place) == place
            &&& plain(names(place))
        },
    decreases moves.len(),
{
    if moves.len() > 0 {
        if path_starts_with(path, moves.first().0) {
            let from = moves.first().0;
            let to = moves.first().1;
            lemma_names_are_names(to);
            lemma_names_are_names(path);
            lemma_all_names_chain(names(to), names(path), names(from).len() as int);
            lemma_rendered_normal(
                is_absolute(to),
                names(to) + names(path).skip(names(from).len() as int),
            );
        } else {
            lemma_after_move_normal(moves.drop_first(), path);
        }
    }
}

/// `pathdiff::diff_paths` on paths without `.` or `..`: the relative path
/// from `base` to `path` where both start at the root or neither does; the
/// path itself where only the path starts at the root; and nothing where
/// only the base does.
#[verifier::external_body]
fn diff_paths(path: &str, base: &str) -> (relative: Option<String>)
    requires
        plain(names(path@)),
        plain(names(base@)),
    ensures
        relative.deep_view() == if is_absolute(path@) == is_absolute(base@) {
            Some(relative_form(path@, base@))
        } else if is_absolute(path@) {
            Some(path@)
        } else {
            None
        },
{
    pathdiff::diff_paths(path, base).and_then(|found| found.to_str().map(|text| text.to_string()))
}

/// Why a link cannot be written anew.
#[derive(Debug, Clone, Copy, PartialEq, Eq, Structural)]
pub enum PathError {
    /// A link from the root points, after the moves, outside the root.
    OutsideRoot,
    /// No relative path leads from the file to what its link points at.
    NoRelativePath,
    /// The file that holds the links lies in no directory.
    NoDirectory,
}

/// Where the first `#` of a link stands, or the length of a link without.
pub open spec fn hash_at(link: Seq<char>) -> int
    decreases link.len(),
{
    if link.len() == 0 {
        0
    } else if link.first() == '#' {
        0
    } else {
        1 + hash_at(link.drop_first())
    }
}

/// The part of a link that names a file: what precedes its first `#`.
pub open spec fn path_part(link: Seq<char>) -> Seq<char> {
    link.take(hash_at(link))
}

/// The fragment of a link: what follows its first `#`, if it has one.
pub open spec fn fragment_of(link: Seq<char>) -> Option<Seq<char>> {
    if hash_at(link) < link.len() {
        Some(link.skip(hash_at(link) + 1))
    } else {
        None
    }
}

/// The first name of a link to the web, which is no path.
pub open spec fn is_web_scheme(name: Seq<char>) -> bool {
    name == "https:"@ || name == "http:"@
}

/// What a link points at, as a normalised path, and whether the link counts
/// from the root. A link from the root is resolved against `root`, any other
/// against the directory of the file it stands in. A link without a path
/// part, and one into the web, points at no file.
pub open spec fn resolved(link: Seq<char>, file_dir: Seq<char>, root: Seq<char>) -> Option<
    (Seq<char>, bool),
> {
    let path = path_part(link);
    if path.len() == 0 {
        None
    } else if is_absolute(path) {
        Some((rendered(is_absolute(root), normal_form(names(root) + names(path))), true))
    } else if names(path).len() > 0 && is_web_scheme(names(path).first()) {
        None
    } else {
        Some((rendered(is_absolute(file_dir), normal_form(names(file_dir) + names(path))), false))
    }
}

/// A link with its fragment put back.
pub open spec fn with_fragment(path: Seq<char>, fragment: Option<Seq<char>>) -> Seq<char> {
    match fragment {
        Some(fragment) => path + seq!['#'] + fragment,
        None => path,
    }
}

/// The link that points, after the moves, at what the normalised `target`
/// pointed at before: from the root where the link counted from the root, else from the
/// directory in which the file with the link lies after the moves. The
/// fragment is put back as it was.
pub open spec fn relinked(
    target: Seq<char>,
    rooted: bool,
    fragment: Option<Seq<char>>,
    moves: Seq<(Seq<char>, Seq<char>)>,
    file_dest_dir: Seq<char>,
    root: Seq<char>,
) -> Result<Seq<char>, PathError> {
    let target = normalized(target);
    let place = match after_move(moves, target) {
        Some(place) => place,
        None => target,
    };
    if rooted {
        if path_starts_with(place, root) {
            Ok(with_fragment(rendered(true, names(place).skip(names(root).len() as int)), fragment))
        } else {
            Err(PathError::OutsideRoot)
        }
    } else {
        let base = normalized(file_dest_dir);
        if is_absolute(place) == is_absolute(base) {
            Ok(with_fragment(relative_form(place, base), fragment))
        } else if is_absolute(place) {
            Ok(with_fragment(place, fragment))
        } else {
            Err(PathError::NoRelativePath)
        }
    }
}

/// A link taken apart: the file it points at, whether it counts from the
/// root, and its fragment.
pub struct Resolved {
    pub target: String,
    pub rooted: bool,
    pub fragment: Option<String>,
}

/// Takes a link apart and resolves its path; see [`resolved`]. `None` for a
/// link that points at no file: it is to be left as it is.
pub fn resolve_link(link: &str, file_dir: &str, root: &str) -> (found: Option<Resolved>)
    ensures
        match found {
            Some(link_to) => {
                &&& resolved(link@, file_dir@, root@) == Some((link_to.target@, link_to.rooted))
                &&& link_to.fragment.deep_view() == fragment_of(link@)
            },
            None => resolved(link@, file_dir@, root@) is None,
        },
{
    let chars = chars_of(link);
    let mut at: usize = 0;
    proof {
        assert(chars@.skip(0) =~= chars@);
    }
    while at < chars.len() && chars[at] != '#'
        invariant
            0 <= at <= chars.len(),
            hash_at(chars@) == at + hash_at(chars@.skip(at as int)),
        decreases chars.len() - at,
    {
        proof {
            assert(chars@.skip(at as int).first() == chars[at as int]);
            assert(chars@.skip(at as int).drop_first() =~= chars@.skip(at + 1));
        }
        at = at + 1;
    }
    proof {
        if at < chars.len() {
            assert(chars@.skip(at as int).first() == chars[at as int]);
        }
        assert(hash_at(chars@) == at);
    }
    let mut path: Vec<char> = Vec::new();
    let mut i: usize = 0;
    while i < at
        invariant
            0 <= i <= at <= chars.len(),
            path@ == chars@.take(i as int),
        decreases at - i,
    {
        path.push(chars[i]);
        proof {
            assert(chars@.take(i + 1) =~= chars@.take(i as int).push(chars[i as int]));
        }
        i = i + 1;
    }
    let fragment = if at < chars.len() {
        let mut rest: Vec<char> = Vec::new();
        let mut j: usize = at + 1;
        proof {
            assert(chars@.subrange(at + 1, at + 1) =~= Seq::<char>::empty());
        }
        while j < chars.len()
            invariant
                at + 1 <= j <= chars.len(),
                rest@ == chars@.subrange(at + 1, j as int),
            decreases chars.len() - j,
        {
            rest.push(chars[j]);
            proof {
                assert(chars@.subrange(at + 1, j + 1) =~= chars@.subrange(at + 1, j as int).push(
                    chars[j as int],
                ));
            }
            j = j + 1;
        }
        proof {
            assert(chars@.subrange(at + 1, j as int) =~= chars@.skip(at + 1));
        }
        Some(text_of(&rest))
    } else {
        None
    };
    if path.len() == 0 {
        return None;
    }
    let path_names = split_names(&path);
    let rooted = starts_at_root(&path);
    let base = if rooted {
        chars_of(root)
    } else {
        if path_names.len() > 0 {
            proof {
                lemma_name_at(path_names, 0);
            }
            if same_chars(&path_names[0], &chars_of("https:")) || same_chars(
                &path_names[0],
                &chars_of("http:"),
            ) {
                return None;
            }
        }
        chars_of(file_dir)
    };
    let all = chain_names(&split_names(&base), &path_names, 0);
    proof {
        assert(path_names.deep_view().skip(0) =~= path_names.deep_view());
    }
    let target = text_of(&render(starts_at_root(&base), &normalize_names(&all)));
    Some(Resolved { target, rooted, fragment })
}

/// Writes the link anew that pointed at `link_to.target`; see [`relinked`].
pub fn relink(link_to: &Resolved, moves: &MoveList, file_dest_dir: &str, root: &str) -> (link: Result<
    String,
    PathError,
>)
    ensures
        match link {
            Ok(text) => Ok::<Seq<char>, PathError>(text@),
            Err(error) => Err(error),
        } == relinked(
            link_to.target@,
            link_to.rooted,
            link_to.fragment.deep_view(),
            moves@,
            file_dest_dir@,
            root@,
        ),
{
    let target = normalize_path(link_to.target.as_str());
    let place = match moves.get_path_after_move(target.as_str()) {
        Some(place) => place,
        None => target,
    };
    proof {
        lemma_after_move_normal(moves@, normalized(link_to.target@));
        lemma_normalized_names(link_to.target@);
    }
    let mut link = if link_to.rooted {
        let chars = chars_of(place.as_str());
        let place_names = split_names(&chars);
        let root_chars = chars_of(root);
        let root_names = split_names(&root_chars);
        if starts_at_root(&chars) == starts_at_root(&root_chars) && names_start_with(
            &place_names,
            &root_names,
        ) {
            let none: Vec<Vec<char>> = Vec::new();
            let rest = chain_names(&none, &place_names, root_names.len());
            proof {
                assert(none.deep_view() =~= Seq::<Seq<char>>::empty());
                assert(none.deep_view() + place_names.deep_view().skip(root_names.len() as int)
                    =~= place_names.deep_view().skip(root_names.len() as int));
            }
            text_of(&render(true, &rest))
        } else {
            return Err(PathError::OutsideRoot);
        }
    } else {
        let base = normalize_path(file_dest_dir);
        proof {
            lemma_normalized_names(file_dest_dir@);
        }
        match diff_paths(place.as_str(), base.as_str()) {
            Some(relative) => relative,
            None => {
                return Err(PathError::NoRelativePath);
            },
        }
    };
    match &link_to.fragment {
        Some(fragment) => {
            link.append("#");
            link.append(fragment.as_str());
            proof {
                reveal_strlit("#");
                assert("#"@ =~= seq!['#']);
            }
        },
        None => {},
    }
    Ok(link)
}

/// `found` is an answer that the check of the file system can give for a
/// path.
pub open spec fn may_exist<F: Fn(&str) -> bool>(on_disk: F, path: Seq<char>, found: bool) -> bool {
    exists|place: &str| place@ == path && #[trigger] call_ensures(on_disk, (place,), found)
}

/// The answers of the policy that keeps links pointing at files that move.
/// A link that points at no file is kept. A link that does is kept too
/// where the file system has nothing at its target; else it is written anew
/// for where its target and the file that holds it lie after the moves.
pub open spec fn link_answers<F: Fn(&str) -> bool>(
    on_disk: F,
    file_dir: Seq<char>,
    file_dest_dir: Seq<char>,
    root: Seq<char>,
    moves: Seq<(Seq<char>, Seq<char>)>,
) -> spec_fn(Seq<char>, Result<Option<String>, PathError>) -> bool {
    |link: Seq<char>, outcome: Result<Option<String>, PathError>|
        match resolved(link, file_dir, root) {
            None => outcome == Ok::<Option<String>, PathError>(None),
            Some((target, rooted)) => {
                ||| may_exist(on_disk, target, false) && outcome == Ok::<Option<String>, PathError>(
                    None,
                )
                ||| may_exist(on_disk, target, true) && match relinked(
                    target,
                    rooted,
                    fragment_of(link),
                    moves,
                    file_dest_dir,
                    root,
                ) {
                    Ok(text) => outcome matches Ok(Some(new)) && new@ == text,
                    Err(error) => outcome == Err::<Option<String>, PathError>(error),
                }
            },
        }
}

/// Decides what becomes of one link of a file that lies in `file_dir` and,
/// after the moves, in `file_dest_dir`; see [`link_answers`]. `on_disk` asks
/// the file system whether anything is at a path.
pub fn rewrite_link<F: Fn(&str) -> bool>(
    link: &str,
    file_dir: &str,
    file_dest_dir: &str,
    root: &str,
    moves: &MoveList,
    on_disk: &F,
) -> (answer: Result<Option<String>, PathError>)
    requires
        forall|place: &str| call_requires(*on_disk, (place,)),
    ensures
        link_answers(*on_disk, file_dir@, file_dest_dir@, root@, moves@)(link@, answer),
{
    let link_to = match resolve_link(link, file_dir, root) {
        Some(link_to) => link_to,
        None => {
            return Ok(None);
        },
    };
    if !on_disk(link_to.target.as_str()) {
        proof {
            assert(may_exist(*on_disk, link_to.target@, false));
        }
        return Ok(None);
    }
    proof {
        assert(may_exist(*on_disk, link_to.target@, true));
    }
    match relink(&link_to, moves, file_dest_dir, root) {
        Ok(text) => Ok(Some(text)),
        Err(error) => Err(error),
    }
}

/// A Markdown file: one whose name ends in `.md` or `.markdown`.
pub open spec fn is_markdown(file: Seq<char>) -> bool {
    file_name(file) matches Some(name) && (extension_of(name) == Some("md"@) || extension_of(name)
        == Some("markdown"@))
}

/// Whether the path names a Markdown file; see [`is_markdown`].
pub fn has_markdown_extension(file: &str) -> (markdown: bool)
    ensures
        markdown == is_markdown(file@),
{
    match file_name_of(file) {
        Some(name) => match extension(&chars_of(name.as_str())) {
            Some(found) => same_chars(&found, &chars_of("md")) || same_chars(
                &found,
                &chars_of("markdown"),
            ),
            None => false,
        },
        None => false,
    }
}

/// Where a file lies after the moves: where the moves carry it, and where
/// it is if none does.
pub open spec fn place_after(moves: Seq<(Seq<char>, Seq<char>)>, file: Seq<char>) -> Seq<char> {
    match after_move(moves, file) {
        Some(place) => place,
        None => file,
    }
}

/// What a file's links are to be rewritten with: the answers of
/// [`link_answers`] for the directory of the file before and after the moves.
pub open spec fn file_answers<F: Fn(&str) -> bool>(
    on_disk: F,
    file: Seq<char>,
    root: Seq<char>,
    moves: Seq<(Seq<char>, Seq<char>)>,
) -> spec_fn(Seq<char>, Result<Option<String>, PathError>) -> bool {
    link_answers(
        on_disk,
        parent(file).unwrap(),
        parent(place_after(moves, file)).unwrap(),
        root,
        moves,
    )
}

/// The change that the moves ask for in one file, if any: the path where
/// the file lies after the moves, and its new content.
///
/// A file that is no Markdown file is not changed, nor is one of which no
/// link is replaced. The links are rewritten as [`crate::links::replace_links`]
/// does, with the answers of [`file_answers`].
pub fn change_file<'a, F: Fn(&str) -> bool>(
    file: &str,
    content: &'a str,
    moves: &MoveList,
    root: &str,
    on_disk: &F,
) -> (change: Result<Option<(String, Cow<'a, str>)>, RewriteError<PathError>>)
    requires
        forall|place: &str| call_requires(*on_disk, (place,)),
    ensures
        !is_markdown(file@) ==> change matches Ok(None),
        is_markdown(file@) && (parent(file@) is None || parent(place_after(moves@, file@)) is None)
            ==> change matches Err(RewriteError::Policy(PathError::NoDirectory)),
        is_markdown(file@) && parent(file@) is Some && parent(place_after(moves@, file@)) is Some
            ==> match change {
            Ok(None) => rewritten(
                file_answers(*on_disk, file@, root@, moves@),
                content@,
                Ok::<Cow<'_, str>, RewriteError<PathError>>(Cow::Borrowed(content)),
            ),
            Ok(Some((place, text))) => {
                &&& place@ == place_after(moves@, file@)
                &&& text is Owned
                &&& rewritten(
                    file_answers(*on_disk, file@, root@, moves@),
                    content@,
                    Ok::<Cow<'_, str>, RewriteError<PathError>>(text),
                )
            },
            Err(error) => rewritten(
                file_answers(*on_disk, file@, root@, moves@),
                content@,
                Err::<Cow<'_, str>, RewriteError<PathError>>(error),
            ),
        },
{
    if !has_markdown_extension(file) {
        return Ok(None);
    }
    let file_dest = match moves.get_path_after_move(file) {
        Some(place) => place,
        None => String::from_str(file),
    };
    let file_dir = match parent_of(file) {
        Some(directory) => directory,
        None => {
            return Err(RewriteError::Policy(PathError::NoDirectory));
        },
    };
    let file_dest_dir = match parent_of(file_dest.as_str()) {
        Some(directory) => directory,
        None => {
            return Err(RewriteError::Policy(PathError::NoDirectory));
        },
    };
    let ghost answers = file_answers(*on_disk, file@, root@, moves@);
    let policy = |link: &str| -> (answer: Result<Option<String>, PathError>)
        ensures
            answers(link@, answer),
        { rewrite_link(link, file_dir.as_str(), file_dest_dir.as_str(), root, moves, on_disk) };
    let result = replace_links(content, policy);
    proof {
        assert forall|text: Seq<char>, outcome: Result<Option<String>, PathError>| #[trigger]
            answers_of(policy)(text, outcome) implies answers(text, outcome) by {
            assert(may_decide(policy, text, outcome));
        }
        lemma_rewritten_weaken(answers_of(policy), answers, content@, result);
    }
    match result {
        Ok(Cow::Borrowed(_)) => Ok(None),
        Ok(Cow::Owned(text)) => Ok(Some((file_dest, Cow::Owned(text)))),
        Err(error) => Err(error),
    }
}

/// Why the files cannot be moved as asked.
#[derive(Debug, Clone, Copy, PartialEq, Eq, Structural)]
pub enum MoveError {
    /// Several files are to be moved, and the destination is no directory.
    NotADirectory,
    /// A source path ends in no file name.
    NoFileName,
}

/// Every source path ends in a file name.
pub open spec fn all_named(sources: Seq<Seq<char>>) -> bool {
    forall|i: int| 0 <= i < sources.len() ==> file_name(#[trigger] sources[i]) is Some
}

/// The moves that put each source, under its own name, into the directory
/// `destination`.
pub open spec fn planned(sources: Seq<Seq<char>>, destination: Seq<char>) -> Seq<
    (Seq<char>, Seq<char>),
>
    decreases sources.len(),
{
    if sources.len() == 0 {
        Seq::empty()
    } else {
        recorded(
            planned(sources.drop_last(), destination),
            sources.last(),
            placed_in(destination, file_name(sources.last()).unwrap()),
        )
    }
}

/// The move of a single source: into the destination where that exists,
/// else to the destination itself, which is then the file's new name.
pub open spec fn single_move(
    source: Seq<char>,
    destination: Seq<char>,
    destination_exists: bool,
) -> (Seq<char>, Seq<char>) {
    if destination_exists {
        (source, placed_in(destination, file_name(source).unwrap()))
    } else {
        (source, destination)
    }
}

/// Plans the moves of a run. `sources` are the paths to move, as the file
/// system resolves them; the two flags say what the file system holds at
/// `destination`. One source may be renamed or put into the destination;
/// several go into the destination, which has to be a directory.
pub fn get_move_list(
    sources: Vec<String>,
    destination: String,
    destination_exists: bool,
    destination_is_dir: bool,
) -> (plan: Result<MoveList, MoveError>)
    ensures
        match plan {
            Ok(list) => {
                &&& all_named(sources.deep_view())
                &&& sources.len() == 1 || destination_is_dir
                &&& distinct_sources(list@)
                &&& list@ == if sources.len() == 1 {
                    seq![single_move(sources[0]@, destination@, destination_exists)]
                } else {
                    planned(sources.deep_view(), destination@)
                }
            },
            Err(MoveError::NotADirectory) => sources.len() != 1 && !destination_is_dir,
            Err(MoveError::NoFileName) => (sources.len() == 1 || destination_is_dir) && !all_named(
                sources.deep_view(),
            ),
        },
{
    let mut list = MoveList::new();
    if sources.len() == 1 {
        let name = match file_name_of(sources[0].as_str()) {
            Some(name) => name,
            None => {
                proof {
                    assert(sources.deep_view()[0] == sources[0]@);
                }
                return Err(MoveError::NoFileName);
            },
        };
        let target = if destination_exists {
            place_in(destination.as_str(), name.as_str())
        } else {
            destination
        };
        list.insert(sources[0].clone(), target);
        proof {
            assert forall|i: int| 0 <= i < sources.len() implies file_name(
                #[trigger] sources.deep_view()[i],
            ) is Some by {
                assert(sources.deep_view()[i] == sources[0]@);
            }
            assert(list@ =~= seq![single_move(sources[0]@, destination@, destination_exists)]);
        }
        return Ok(list);
    }
    if !destination_is_dir {
        return Err(MoveError::NotADirectory);
    }
    let ghost all = sources.deep_view();
    let mut i: usize = 0;
    proof {
        assert(all.take(0) =~= Seq::<Seq<char>>::empty());
    }
    while i < sources.len()
        invariant
            0 <= i <= sources.len(),
            destination_is_dir,
            all == sources.deep_view(),
            all_named(all.take(i as int)),
            distinct_sources(list@),
            list@ == planned(all.take(i as int), destination@),
        decreases sources.len() - i,
    {
        proof {
            assert(all.take(i + 1).drop_last() =~= all.take(i as int));
            assert(all.take(i + 1).last() == sources[i as int]@);
        }
        let name = match file_name_of(sources[i].as_str()) {
            Some(name) => name,
            None => {
                proof {
                    assert(file_name(all[i as int]) is None);
                }
                return Err(MoveError::NoFileName);
            },
        };
        list.insert(sources[i].clone(), place_in(destination.as_str(), name.as_str()));
        proof {
            assert forall|k: int| 0 <= k < i + 1 implies file_name(#[trigger] all.take(i + 1)[k])
                is Some by {
                if k < i {
                    assert(all.take(i as int)[k] == all[k]);
                }
            }
        }
        i = i + 1;
    }
    proof {
        assert(all.take(i as int) =~= all);
    }
    Ok(list)
}

} // verus!
