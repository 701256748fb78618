//! Paths as text: splitting into names, lexical normalisation, and joining.
//!
//! A path is a text in which `/` separates names. It is absolute when it
//! starts with a separator. Nothing here touches the file system.

use vstd::prelude::*;
use vstd::string::*;

verus! {

/// The characters of a text, one by one.
pub fn chars_of(text: &str) -> (chars: Vec<char>)
    ensures
        chars@ == text@,
{
    broadcast use vstd::string::group_string_axioms;

    let mut chars: Vec<char> = Vec::new();
    for c in it: text.chars()
        invariant
            it.seq() == text@,
            chars@ == it.seq().take(it.index()),
    {
        assert(it.seq().take(it.index() + 1) =~= it.seq().take(it.index()).push(c));
        chars.push(c);
    }
    assert(chars@ =~= text@);
    chars
}

/// `String::from_iter` of the standard library on the characters of a
/// vector: the text made of these characters in this order.
#[verifier::external_body]
pub(crate) fn text_of(chars: &Vec<char>) -> (text: String)
    ensures
        text@ == chars@,
{
    chars.iter().collect()
}

/// A copy of a vector of characters.
pub fn copy_chars(chars: &Vec<char>) -> (copy: Vec<char>)
    ensures
        copy@ == chars@,
{
    let mut copy: Vec<char> = Vec::new();
    let mut i: usize = 0;
    while i < chars.len()
        invariant
            0 <= i <= chars.len(),
            copy@ == chars@.take(i as int),
        decreases chars.len() - i,
    {
        copy.push(chars[i]);
        proof {
            assert(chars@.take(i + 1) =~= chars@.take(i as int).push(chars[i as int]));
        }
        i = i + 1;
    }
    proof {
        assert(chars@.take(i as int) =~= chars@);
    }
    copy
}

/// Whether two vectors hold the same characters.
pub fn same_chars(a: &Vec<char>, b: &Vec<char>) -> (same: bool)
    ensures
        same == (a@ == b@),
{
    if a.len() != b.len() {
        return false;
    }
    let mut i: usize = 0;
    while i < a.len()
        invariant
            0 <= i <= a.len(),
            a.len() == b.len(),
            a@.take(i as int) == b@.take(i as int),
        decreases a.len() - i,
    {
        if a[i] != b[i] {
            return false;
        }
        proof {
            assert(a@.take(i + 1) =~= a@.take(i as int).push(a[i as int]));
            assert(b@.take(i + 1) =~= b@.take(i as int).push(b[i as int]));
        }
        i = i + 1;
    }
    proof {
        assert(a@.take(i as int) =~= a@);
        assert(b@.take(i as int) =~= b@);
    }
    true
}

/// Seen whole, a vector of characters is the sequence of its characters.
pub proof fn lemma_chars_deep_view(chars: Vec<char>)
    ensures
        chars.deep_view() == chars@,
{
    assert(chars.deep_view() =~= chars@);
}

/// Seen whole, a vector of names holds each name as its characters.
pub proof fn lemma_name_at(names: Vec<Vec<char>>, i: int)
    requires
        0 <= i < names.len(),
    ensures
        names.deep_view()[i] == names[i]@,
{
    lemma_chars_deep_view(names[i]);
}

/// Pushing a name onto a vector of names pushes it onto what the vector
/// holds.
pub proof fn lemma_push_name(before: Vec<Vec<char>>, after: Vec<Vec<char>>, name: Vec<char>)
    requires
        after@ == before@.push(name),
    ensures
        after.deep_view() == before.deep_view().push(name@),
{
    lemma_chars_deep_view(name);
    assert(after.deep_view() =~= before.deep_view().push(name@));
}

/// A path is absolute when it starts at the root.
pub open spec fn is_absolute(path: Seq<char>) -> bool {
    path.len() > 0 && path[0] == '/'
}

/// Reading a path from left to right: the names that have been closed by a
/// separator, and the characters of the name that is still open.
pub open spec fn scanned(path: Seq<char>) -> (Seq<Seq<char>>, Seq<char>)
    decreases path.len(),
{
    if path.len() == 0 {
        (Seq::empty(), Seq::empty())
    } else {
        let (closed, open) = scanned(path.drop_last());
        if path.last() == '/' {
            (with_name(closed, open), Seq::empty())
        } else {
            (closed, open.push(path.last()))
        }
    }
}

/// `names` with one more name, unless that one is empty.
pub open spec fn with_name(names: Seq<Seq<char>>, name: Seq<char>) -> Seq<Seq<char>> {
    if name.len() > 0 {
        names.push(name)
    } else {
        names
    }
}

/// The names of a path: what stands between its separators. Repeated
/// separators, and one at the end, separate nothing.
pub open spec fn names(path: Seq<char>) -> Seq<Seq<char>> {
    with_name(scanned(path).0, scanned(path).1)
}

/// The name `.`, which stands for the directory it is in.
pub open spec fn is_current(name: Seq<char>) -> bool {
    name == seq!['.']
}

/// The name `..`, which stands for the directory above.
pub open spec fn is_parent(name: Seq<char>) -> bool {
    name == seq!['.', '.']
}

/// The names of a path after lexical normalisation. Going through the names
/// from left to right, `.` is dropped, `..` takes back the last name that
/// was kept (and does nothing where none is left), and any other name is
/// kept.
pub open spec fn normal_form(names: Seq<Seq<char>>) -> Seq<Seq<char>>
    decreases names.len(),
{
    if names.len() == 0 {
        Seq::empty()
    } else {
        let kept = normal_form(names.drop_last());
        let name = names.last();
        if is_current(name) {
            kept
        } else if is_parent(name) {
            if kept.len() > 0 {
                kept.drop_last()
            } else {
                kept
            }
        } else {
            kept.push(name)
        }
    }
}

/// The names with a separator between each two.
pub open spec fn joined(names: Seq<Seq<char>>) -> Seq<char>
    decreases names.len(),
{
    if names.len() == 0 {
        Seq::empty()
    } else if names.len() == 1 {
        names[0]
    } else {
        joined(names.drop_last()) + seq!['/'] + names.last()
    }
}

/// The path with these names, from the root where it is absolute.
pub open spec fn rendered(absolute: bool, names: Seq<Seq<char>>) -> Seq<char> {
    if absolute {
        seq!['/'] + joined(names)
    } else {
        joined(names)
    }
}

/// The lexical normal form of a path: its names normalised, behind the root
/// marker if the path has one.
pub open spec fn normalized(path: Seq<char>) -> Seq<char> {
    rendered(is_absolute(path), normal_form(names(path)))
}

/// A name as it can stand in a path: not empty, and without a separator.
pub open spec fn is_name(name: Seq<char>) -> bool {
    name.len() > 0 && !name.contains('/')
}

/// All of these can stand in a path as names.
pub open spec fn all_names(names: Seq<Seq<char>>) -> bool {
    forall|i: int| 0 <= i < names.len() ==> is_name(#[trigger] names[i])
}

/// None of the names is `.` or `..`.
pub open spec fn plain(names: Seq<Seq<char>>) -> bool {
    forall|i: int|
        0 <= i < names.len() ==> !is_current(#[trigger] names[i]) && !is_parent(names[i])
}

/// What a path is split into are names.
pub proof fn lemma_names_are_names(path: Seq<char>)
    ensures
        all_names(scanned(path).0),
        !scanned(path).1.contains('/'),
        all_names(names(path)),
    decreases path.len(),
{
    if path.len() > 0 {
        lemma_names_are_names(path.drop_last());
        let (closed, open) = scanned(path.drop_last());
        if path.last() != '/' {
            assert forall|i: int| 0 <= i < open.push(path.last()).len() implies open.push(
                path.last(),
            )[i] != '/' by {
                if i < open.len() {
                    assert(open.contains(open[i]));
                }
            }
        }
    }
}

/// Reading on through a name adds the name to the one that is open.
pub proof fn lemma_scan_name(path: Seq<char>, name: Seq<char>)
    requires
        !name.contains('/'),
    ensures
        scanned(path + name) == (scanned(path).0, scanned(path).1 + name),
    decreases name.len(),
{
    if name.len() == 0 {
        assert(path + name =~= path);
        assert(scanned(path).1 + name =~= scanned(path).1);
    } else {
        let front = name.drop_last();
        assert forall|i: int| 0 <= i < front.len() implies front[i] != '/' by {
            assert(name.contains(name[i]));
        }
        lemma_scan_name(path, front);
        assert((path + name).drop_last() =~= path + front);
        assert(name.contains(name.last()));
        assert(scanned(path).1 + front.push(name.last()) =~= (scanned(path).1 + front).push(
            name.last(),
        ));
        assert(front.push(name.last()) =~= name);
    }
}

/// What is read of a path that was written out from names: all names but
/// the last are closed, and the last is open.
pub proof fn lemma_scan_rendered(absolute: bool, names: Seq<Seq<char>>)
    requires
        all_names(names),
        names.len() > 0,
    ensures
        scanned(rendered(absolute, names)) == (names.drop_last(), names.last()),
    decreases names.len(),
{
    let root = if absolute {
        seq!['/']
    } else {
        Seq::<char>::empty()
    };
    assert(scanned(root) == (Seq::<Seq<char>>::empty(), Seq::<char>::empty())) by {
        if absolute {
            assert(root.drop_last() =~= Seq::<char>::empty());
            reveal_with_fuel(scanned, 2);
        }
    }
    if names.len() == 1 {
        assert(rendered(absolute, names) =~= root + names[0]);
        lemma_scan_name(root, names[0]);
        assert(Seq::<char>::empty() + names[0] =~= names[0]);
        assert(names.drop_last() =~= Seq::<Seq<char>>::empty());
    } else {
        let front = names.drop_last();
        lemma_scan_rendered(absolute, front);
        let before = rendered(absolute, front);
        let closed = before.push('/');
        assert(closed.drop_last() =~= before);
        assert(scanned(closed) == (front, Seq::<char>::empty())) by {
            assert(front.drop_last().push(front.last()) =~= front);
        }
        lemma_scan_name(closed, names.last());
        assert(rendered(absolute, names) =~= closed + names.last());
        assert(Seq::<char>::empty() + names.last() =~= names.last());
    }
}

/// A path that was written out from names splits into those names again, and
/// starts at the root exactly if it was written so.
pub proof fn lemma_names_rendered(absolute: bool, names: Seq<Seq<char>>)
    requires
        all_names(names),
    ensures
        self::names(rendered(absolute, names)) == names,
        is_absolute(rendered(absolute, names)) == absolute,
{
    if names.len() == 0 {
        if absolute {
            assert(rendered(absolute, names) =~= seq!['/']);
            reveal_with_fuel(scanned, 2);
            assert(seq!['/'].drop_last() =~= Seq::<char>::empty());
        } else {
            assert(rendered(absolute, names) =~= Seq::<char>::empty());
        }
        assert(self::names(rendered(absolute, names)) =~= names);
    } else {
        lemma_scan_rendered(absolute, names);
        assert(names.drop_last().push(names.last()) =~= names);
        if !absolute {
            lemma_joined_first(names);
            assert(names[0].contains(names[0][0]));
        }
    }
}

/// A joined list of names starts with its first name.
pub proof fn lemma_joined_first(names: Seq<Seq<char>>)
    requires
        names.len() > 0,
        names[0].len() > 0,
    ensures
        joined(names).len() > 0,
        joined(names)[0] == names[0][0],
    decreases names.len(),
{
    if names.len() > 1 {
        lemma_joined_first(names.drop_last());
    }
}

/// Normalising keeps names, and leaves neither `.` nor `..`.
pub proof fn lemma_normal_form_plain(names: Seq<Seq<char>>)
    ensures
        plain(normal_form(names)),
        all_names(names) ==> all_names(normal_form(names)),
    decreases names.len(),
{
    if names.len() > 0 {
        lemma_normal_form_plain(names.drop_last());
        if all_names(names) {
            assert forall|i: int| 0 <= i < names.drop_last().len() implies is_name(
                #[trigger] names.drop_last()[i],
            ) by {
                assert(names.drop_last()[i] == names[i]);
            }
        }
    }
}

/// Plain names are their own normal form.
pub proof fn lemma_normal_form_of_plain(names: Seq<Seq<char>>)
    requires
        plain(names),
    ensures
        normal_form(names) == names,
    decreases names.len(),
{
    if names.len() > 0 {
        assert forall|i: int| 0 <= i < names.drop_last().len() implies !is_current(
            #[trigger] names.drop_last()[i],
        ) && !is_parent(names.drop_last()[i]) by {
            assert(names.drop_last()[i] == names[i]);
        }
        lemma_normal_form_of_plain(names.drop_last());
        assert(names.drop_last().push(names.last()) =~= names);
    }
}

/// Normalising a path twice gives what normalising it once gives.
pub proof fn lemma_normalized_idempotent(path: Seq<char>)
    ensures
        normalized(normalized(path)) == normalized(path),
{
    let kept = normal_form(names(path));
    lemma_names_are_names(path);
    lemma_normal_form_plain(names(path));
    lemma_names_rendered(is_absolute(path), kept);
    lemma_normal_form_of_plain(kept);
}

/// Whether the path given as characters starts at the root.
pub fn starts_at_root(path: &Vec<char>) -> (absolute: bool)
    ensures
        absolute == is_absolute(path@),
{
    path.len() > 0 && path[0] == '/'
}

/// Splits a path into its names.
pub fn split_names(path: &Vec<char>) -> (found: Vec<Vec<char>>)
    ensures
        found.deep_view() == names(path@),
{
    let mut found: Vec<Vec<char>> = Vec::new();
    let mut open: Vec<char> = Vec::new();
    let mut i: usize = 0;
    proof {
        assert(path@.take(0) =~= Seq::<char>::empty());
        assert(found.deep_view() =~= Seq::<Seq<char>>::empty());
    }
    while i < path.len()
        invariant
            0 <= i <= path.len(),
            found.deep_view() == scanned(path@.take(i as int)).0,
            open@ == scanned(path@.take(i as int)).1,
        decreases path.len() - i,
    {
        proof {
            assert(path@.take(i + 1).drop_last() =~= path@.take(i as int));
            assert(path@.take(i + 1).last() == path[i as int]);
        }
        if path[i] == '/' {
            if open.len() > 0 {
                let ghost before = found;
                let ghost name = open;
                found.push(open);
                proof {
                    lemma_push_name(before, found, name);
                }
            }
            open = Vec::new();
        } else {
            open.push(path[i]);
        }
        i = i + 1;
    }
    proof {
        assert(path@.take(i as int) =~= path@);
    }
    if open.len() > 0 {
        let ghost before = found;
        let ghost name = open;
        found.push(open);
        proof {
            lemma_push_name(before, found, name);
        }
    }
    found
}

/// Normalises a list of names; see [`normal_form`].
pub fn normalize_names(names: &Vec<Vec<char>>) -> (kept: Vec<Vec<char>>)
    ensures
        kept.deep_view() == normal_form(names.deep_view()),
{
    let mut kept: Vec<Vec<char>> = Vec::new();
    let mut i: usize = 0;
    proof {
        assert(names.deep_view().take(0) =~= Seq::<Seq<char>>::empty());
        assert(kept.deep_view() =~= Seq::<Seq<char>>::empty());
    }
    while i < names.len()
        invariant
            0 <= i <= names.len(),
            kept.deep_view() == normal_form(names.deep_view().take(i as int)),
        decreases names.len() - i,
    {
        let name = &names[i];
        let ghost before = kept.deep_view();
        proof {
            assert(names.deep_view().take(i + 1).drop_last() =~= names.deep_view().take(i as int));
            assert(names.deep_view().take(i + 1).last() == name@);
        }
        if name.len() == 1 && name[0] == '.' {
            proof {
                assert(name@ =~= seq!['.']);
            }
        } else if name.len() == 2 && name[0] == '.' && name[1] == '.' {
            proof {
                assert(name@ =~= seq!['.', '.']);
            }
            if kept.len() > 0 {
                kept.pop();
                proof {
                    assert(kept.deep_view() =~= before.drop_last());
                }
            }
        } else {
            proof {
                assert(!is_current(name@)) by {
                    if is_current(name@) {
                        assert(seq!['.'].len() == 1);
                        assert(seq!['.'][0] == '.');
                    }
                }
                assert(!is_parent(name@)) by {
                    if is_parent(name@) {
                        assert(seq!['.', '.'].len() == 2);
                        assert(seq!['.', '.'][0] == '.');
                        assert(seq!['.', '.'][1] == '.');
                    }
                }
            }
            kept.push(copy_chars(name));
            proof {
                assert(kept.deep_view() =~= before.push(name@));
            }
        }
        i = i + 1;
    }
    proof {
        assert(names.deep_view().take(i as int) =~= names.deep_view());
    }
    kept
}

/// Writes out the path with these names; see [`rendered`].
pub fn render(absolute: bool, names: &Vec<Vec<char>>) -> (path: Vec<char>)
    ensures
        path@ == rendered(absolute, names.deep_view()),
{
    let mut path: Vec<char> = Vec::new();
    if absolute {
        path.push('/');
    }
    let ghost root = path@;
    let mut i: usize = 0;
    proof {
        assert(names.deep_view().take(0) =~= Seq::<Seq<char>>::empty());
        assert(root + joined(Seq::<Seq<char>>::empty()) =~= root);
    }
    while i < names.len()
        invariant
            0 <= i <= names.len(),
            root == if absolute {
                seq!['/']
            } else {
                Seq::<char>::empty()
            },
            path@ == root + joined(names.deep_view().take(i as int)),
        decreases names.len() - i,
    {
        let ghost done = names.deep_view().take(i as int);
        let ghost next = names.deep_view().take(i + 1);
        proof {
            assert(next.drop_last() =~= done);
            assert(next.last() == names[i as int]@);
        }
        if i > 0 {
            path.push('/');
        }
        let ghost start = path@;
        let name = &names[i];
        let mut j: usize = 0;
        while j < name.len()
            invariant
                0 <= j <= name.len(),
                path@ == start + name@.take(j as int),
            decreases name.len() - j,
        {
            path.push(name[j]);
            proof {
                assert(name@.take(j + 1) =~= name@.take(j as int).push(name[j as int]));
            }
            j = j + 1;
        }
        proof {
            assert(name@.take(j as int) =~= name@);
            if i == 0 {
                assert(done =~= Seq::<Seq<char>>::empty());
                assert(next.len() == 1);
                assert(path@ =~= root + joined(next));
            } else {
                assert(done.len() > 0);
                assert(next.len() > 1);
                assert(path@ =~= root + (joined(done) + seq!['/'] + name@));
            }
        }
        i = i + 1;
    }
    proof {
        assert(names.deep_view().take(i as int) =~= names.deep_view());
        if !absolute {
            assert(root + joined(names.deep_view()) =~= joined(names.deep_view()));
        }
    }
    path
}

/// `prefix` is the beginning of `names`.
pub open spec fn is_prefix(prefix: Seq<Seq<char>>, names: Seq<Seq<char>>) -> bool {
    prefix.len() <= names.len() && names.take(prefix.len() as int) == prefix
}

/// A path starts with another where both start at the root or neither does,
/// and the names of the other are the first names of the path. Only whole
/// names count.
pub open spec fn path_starts_with(path: Seq<char>, base: Seq<char>) -> bool {
    is_absolute(path) == is_absolute(base) && is_prefix(names(base), names(path))
}

/// The directory that holds what a path names: the path without its last
/// name. A path without names has none.
pub open spec fn parent(path: Seq<char>) -> Option<Seq<char>> {
    if names(path).len() == 0 {
        None
    } else {
        Some(rendered(is_absolute(path), names(path).drop_last()))
    }
}

/// The last name of a path, unless the path has no names or ends in `.` or
/// `..`.
pub open spec fn file_name(path: Seq<char>) -> Option<Seq<char>> {
    if names(path).len() == 0 || is_current(names(path).last()) || is_parent(names(path).last()) {
        None
    } else {
        Some(names(path).last())
    }
}

/// Where the last dot of a name stands, or -1 for a name without one.
pub open spec fn last_dot(name: Seq<char>) -> int
    decreases name.len(),
{
    if name.len() == 0 {
        -1
    } else if name.last() == '.' {
        name.len() - 1
    } else {
        last_dot(name.drop_last())
    }
}

/// What follows the last dot of a file name. A name without a dot has no
/// extension, nor has one whose only dot is its first character.
pub open spec fn extension_of(name: Seq<char>) -> Option<Seq<char>> {
    if last_dot(name) <= 0 {
        None
    } else {
        Some(name.skip(last_dot(name) + 1))
    }
}

/// What precedes the last dot of a file name: the whole name where it has
/// no extension.
pub open spec fn stem_of(name: Seq<char>) -> Seq<char> {
    if last_dot(name) <= 0 {
        name
    } else {
        name.take(last_dot(name))
    }
}

/// The names of the path `base` followed by those of `rest` from the
/// `skip`th on.
pub fn chain_names(base: &Vec<Vec<char>>, rest: &Vec<Vec<char>>, skip: usize) -> (all: Vec<
    Vec<char>,
>)
    requires
        skip <= rest.len(),
    ensures
        all.deep_view() == base.deep_view() + rest.deep_view().skip(skip as int),
{
    let mut all: Vec<Vec<char>> = Vec::new();
    let mut i: usize = 0;
    proof {
        assert(all.deep_view() =~= base.deep_view().take(0));
    }
    while i < base.len()
        invariant
            0 <= i <= base.len(),
            all.deep_view() == base.deep_view().take(i as int),
        decreases base.len() - i,
    {
        let ghost before = all;
        let name = copy_chars(&base[i]);
        all.push(name);
        proof {
            lemma_push_name(before, all, name);
            lemma_name_at(*base, i as int);
            assert(base.deep_view().take(i + 1) =~= base.deep_view().take(i as int).push(
                base[i as int]@,
            ));
        }
        i = i + 1;
    }
    let mut j: usize = skip;
    proof {
        assert(base.deep_view().take(i as int) =~= base.deep_view());
        assert(rest.deep_view().subrange(skip as int, skip as int) =~= Seq::<Seq<char>>::empty());
        assert(all.deep_view() =~= base.deep_view() + rest.deep_view().subrange(
            skip as int,
            skip as int,
        ));
    }
    while j < rest.len()
        invariant
            skip <= j <= rest.len(),
            all.deep_view() == base.deep_view() + rest.deep_view().subrange(skip as int, j as int),
        decreases rest.len() - j,
    {
        let ghost before = all;
        let name = copy_chars(&rest[j]);
        all.push(name);
        proof {
            lemma_push_name(before, all, name);
            lemma_name_at(*rest, j as int);
            assert(rest.deep_view().subrange(skip as int, j + 1) =~= rest.deep_view().subrange(
                skip as int,
                j as int,
            ).push(rest[j as int]@));
            assert(all.deep_view() =~= base.deep_view() + rest.deep_view().subrange(
                skip as int,
                j + 1,
            ));
        }
        j = j + 1;
    }
    proof {
        assert(rest.deep_view().subrange(skip as int, j as int) =~= rest.deep_view().skip(
            skip as int,
        ));
    }
    all
}

/// Whether `prefix` is the beginning of `names`.
pub fn names_start_with(names: &Vec<Vec<char>>, prefix: &Vec<Vec<char>>) -> (starts: bool)
    ensures
        starts == is_prefix(prefix.deep_view(), names.deep_view()),
{
    if prefix.len() > names.len() {
        return false;
    }
    let mut i: usize = 0;
    proof {
        assert(names.deep_view().take(0) =~= prefix.deep_view().take(0));
    }
    while i < prefix.len()
        invariant
            0 <= i <= prefix.len() <= names.len(),
            names.deep_view().take(i as int) == prefix.deep_view().take(i as int),
        decreases prefix.len() - i,
    {
        proof {
            lemma_name_at(*names, i as int);
            lemma_name_at(*prefix, i as int);
        }
        if !same_chars(&names[i], &prefix[i]) {
            proof {
                assert(names.deep_view().take(prefix.len() as int)[i as int] == names[i as int]@);
                assert(prefix.deep_view()[i as int] == prefix[i as int]@);
            }
            return false;
        }
        proof {
            assert(names.deep_view().take(i + 1) =~= names.deep_view().take(i as int).push(
                names[i as int]@,
            ));
            assert(prefix.deep_view().take(i + 1) =~= prefix.deep_view().take(i as int).push(
                prefix[i as int]@,
            ));
        }
        i = i + 1;
    }
    proof {
        assert(prefix.deep_view().take(i as int) =~= prefix.deep_view());
    }
    true
}

/// The last name of a path; see [`file_name`].
pub fn file_name_of(path: &str) -> (name: Option<String>)
    ensures
        name.deep_view() == file_name(path@),
{
    let found = split_names(&chars_of(path));
    if found.len() == 0 {
        return None;
    }
    let last = &found[found.len() - 1];
    proof {
        lemma_name_at(found, found.len() - 1);
    }
    if last.len() == 1 && last[0] == '.' {
        proof {
            assert(last@ =~= seq!['.']);
        }
        None
    } else if last.len() == 2 && last[0] == '.' && last[1] == '.' {
        proof {
            assert(last@ =~= seq!['.', '.']);
        }
        None
    } else {
        proof {
            lemma_not_dots(last@);
        }
        Some(text_of(last))
    }
}

/// A name that is not written `.` or `..` is neither.
pub proof fn lemma_not_dots(name: Seq<char>)
    ensures
        !(name.len() == 1 && name[0] == '.') ==> !is_current(name),
        !(name.len() == 2 && name[0] == '.' && name[1] == '.') ==> !is_parent(name),
{
    if is_current(name) {
        assert(seq!['.'].len() == 1);
        assert(seq!['.'][0] == '.');
    }
    if is_parent(name) {
        assert(seq!['.', '.'].len() == 2);
        assert(seq!['.', '.'][0] == '.');
        assert(seq!['.', '.'][1] == '.');
    }
}

/// The path of `name` inside the directory `directory`.
pub open spec fn placed_in(directory: Seq<char>, name: Seq<char>) -> Seq<char> {
    rendered(is_absolute(directory), names(directory).push(name))
}

/// The path of `name` inside `directory`; see [`placed_in`].
pub fn place_in(directory: &str, name: &str) -> (path: String)
    ensures
        path@ == placed_in(directory@, name@),
{
    let chars = chars_of(directory);
    let mut all = split_names(&chars);
    let ghost before = all;
    let last = chars_of(name);
    all.push(last);
    proof {
        lemma_push_name(before, all, last);
    }
    text_of(&render(starts_at_root(&chars), &all))
}

/// The directory of a path; see [`parent`].
pub fn parent_of(path: &str) -> (directory: Option<String>)
    ensures
        directory.deep_view() == parent(path@),
{
    let chars = chars_of(path);
    let mut all = split_names(&chars);
    if all.len() == 0 {
        return None;
    }
    let ghost before = all.deep_view();
    all.pop();
    proof {
        assert(all.deep_view() =~= before.drop_last());
    }
    Some(text_of(&render(starts_at_root(&chars), &all)))
}

/// A normalised path splits into the normal form of the path's names,
/// none of which is `.` or `..`, and starts at the root if the path does.
pub proof fn lemma_normalized_names(path: Seq<char>)
    ensures
        names(normalized(path)) == normal_form(names(path)),
        plain(names(normalized(path))),
        all_names(names(normalized(path))),
        is_absolute(normalized(path)) == is_absolute(path),
{
    lemma_names_are_names(path);
    lemma_normal_form_plain(names(path));
    lemma_names_rendered(is_absolute(path), normal_form(names(path)));
}

/// A path written out from the normal form of names is its own normal form.
pub proof fn lemma_rendered_normal(absolute: bool, names: Seq<Seq<char>>)
    requires
        all_names(names),
    ensures
        normalized(rendered(absolute, normal_form(names))) == rendered(absolute, normal_form(names)),
        plain(self::names(rendered(absolute, normal_form(names)))),
        is_absolute(rendered(absolute, normal_form(names))) == absolute,
{
    lemma_normal_form_plain(names);
    lemma_names_rendered(absolute, normal_form(names));
    lemma_normal_form_of_plain(normal_form(names));
}

/// Names put one behind the other are names.
pub proof fn lemma_all_names_chain(a: Seq<Seq<char>>, b: Seq<Seq<char>>, skip: int)
    requires
        all_names(a),
        all_names(b),
        0 <= skip <= b.len(),
    ensures
        all_names(a + b.skip(skip)),
{
    assert forall|i: int| 0 <= i < (a + b.skip(skip)).len() implies is_name(
        #[trigger] (a + b.skip(skip))[i],
    ) by {
        if i < a.len() {
            assert(is_name(a[i]));
        } else {
            assert(is_name(b[i - a.len() + skip]));
        }
    }
}

/// How many names two lists have in common at their beginning.
pub open spec fn common_len(a: Seq<Seq<char>>, b: Seq<Seq<char>>) -> nat
    decreases a.len(),
{
    if a.len() > 0 && b.len() > 0 && a.first() == b.first() {
        1 + common_len(a.drop_first(), b.drop_first())
    } else {
        0
    }
}

/// The names that lead from the directory `base` to `path`: one `..` for
/// each name of `base` that `path` does not share, then the names of `path`
/// that `base` does not share.
pub open spec fn relative_names(path: Seq<Seq<char>>, base: Seq<Seq<char>>) -> Seq<Seq<char>> {
    let shared = common_len(path, base);
    Seq::new((base.len() - shared) as nat, |i: int| seq!['.', '.']) + path.skip(shared as int)
}

/// The path that leads from the directory `base` to `path`.
pub open spec fn relative_form(path: Seq<char>, base: Seq<char>) -> Seq<char> {
    joined(relative_names(names(path), names(base)))
}

/// The extension of a file name; see [`extension_of`].
pub fn extension(name: &Vec<char>) -> (found: Option<Vec<char>>)
    ensures
        match found {
            Some(extension) => extension_of(name@) == Some(extension@),
            None => extension_of(name@) is None,
        },
{
    let mut dot: usize = name.len();
    proof {
        assert(name@.take(name.len() as int) =~= name@);
    }
    while dot > 0 && name[dot - 1] != '.'
        invariant
            0 <= dot <= name.len(),
            last_dot(name@) == last_dot(name@.take(dot as int)),
        decreases dot,
    {
        proof {
            assert(name@.take(dot as int).drop_last() =~= name@.take(dot - 1));
        }
        dot = dot - 1;
    }
    proof {
        if dot > 0 {
            assert(name@.take(dot as int).last() == '.');
        }
        assert(last_dot(name@) == dot - 1);
    }
    if dot <= 1 {
        return None;
    }
    let mut found: Vec<char> = Vec::new();
    let mut i: usize = dot;
    proof {
        assert(name@.subrange(dot as int, dot as int) =~= Seq::<char>::empty());
    }
    while i < name.len()
        invariant
            dot <= i <= name.len(),
            found@ == name@.subrange(dot as int, i as int),
        decreases name.len() - i,
    {
        found.push(name[i]);
        proof {
            assert(name@.subrange(dot as int, i + 1) =~= name@.subrange(dot as int, i as int).push(
                name[i as int],
            ));
        }
        i = i + 1;
    }
    proof {
        assert(name@.subrange(dot as int, i as int) =~= name@.skip(dot as int));
    }
    Some(found)
}

/// What precedes the extension of a file name; see [`stem_of`].
pub fn stem(name: &Vec<char>) -> (found: Vec<char>)
    ensures
        found@ == stem_of(name@),
{
    let mut dot: usize = name.len();
    proof {
        assert(name@.take(name.len() as int) =~= name@);
    }
    while dot > 0 && name[dot - 1] != '.'
        invariant
            0 <= dot <= name.len(),
            last_dot(name@) == last_dot(name@.take(dot as int)),
        decreases dot,
    {
        proof {
            assert(name@.take(dot as int).drop_last() =~= name@.take(dot - 1));
        }
        dot = dot - 1;
    }
    proof {
        if dot > 0 {
            assert(name@.take(dot as int).last() == '.');
        }
        assert(last_dot(name@) == dot - 1);
    }
    if dot <= 1 {
        return copy_chars(name);
    }
    let mut found: Vec<char> = Vec::new();
    let mut i: usize = 0;
    while i < dot - 1
        invariant
            0 <= i <= dot - 1 < name.len(),
            found@ == name@.take(i as int),
        decreases dot - i,
    {
        found.push(name[i]);
        proof {
            assert(name@.take(i + 1) =~= name@.take(i as int).push(name[i as int]));
        }
        i = i + 1;
    }
    found
}

/// Normalises a path lexically, without looking at the file system: `.` is
/// dropped, `..` takes back the name before it and never climbs above the
/// start of the path, and the root marker stays.
pub fn normalize_path(path: &str) -> (normal: String)
    ensures
        normal@ == normalized(path@),
{
    let chars = chars_of(path);
    let kept = normalize_names(&split_names(&chars));
    text_of(&render(starts_at_root(&chars), &kept))
}

} // verus!
