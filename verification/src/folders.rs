//! The folder lists of the settings: recent folders, favorites and the output
//! folder. Checking that a folder exists and saving the settings are left to
//! the caller.

use vstd::prelude::*;
use crate::text::texts;

verus! {

/// How many recent folders are kept.
pub const MAX_RECENT_FOLDERS: usize = 5;

/// The list without `folder`.
pub open spec fn without(list: Seq<Seq<char>>, folder: Seq<char>) -> Seq<Seq<char>> {
    list.filter(|f: Seq<char>| f != folder)
}

/// The recent folders after using `folder`: it moves to the front (or
/// arrives there), and only the first five are kept.
pub open spec fn recent_after(recent: Seq<Seq<char>>, folder: Seq<char>) -> Seq<Seq<char>> {
    let list = seq![folder] + without(recent, folder);
    if list.len() > MAX_RECENT_FOLDERS {
        list.subrange(0, MAX_RECENT_FOLDERS as int)
    } else {
        list
    }
}

/// The favorites after adding `folder`: unchanged when it is already there,
/// else with it at the end.
pub open spec fn with_favorite(favorites: Seq<Seq<char>>, folder: Seq<char>) -> Seq<Seq<char>> {
    if favorites.contains(folder) {
        favorites
    } else {
        favorites.push(folder)
    }
}

/// The folders without `folder`.
fn remove_text(list: &mut Vec<String>, folder: &str)
    ensures
        texts(final(list)@) == without(texts(old(list)@), folder@),
{
    let ghost pred = |f: Seq<char>| f != folder@;
    let key = folder.to_owned();
    let mut old_list: Vec<String> = Vec::new();
    std::mem::swap(&mut old_list, list);
    let mut kept: Vec<String> = Vec::new();
    let mut i: usize = 0;
    assert(texts(old_list@).subrange(0, 0) =~= Seq::<Seq<char>>::empty());
    assert(texts(kept@) =~= Seq::<Seq<char>>::empty());
    proof {
        reveal(Seq::filter);
    }
    while i < old_list.len()
        invariant
            i <= old_list.len(),
            key@ == folder@,
            pred == (|f: Seq<char>| f != folder@),
            texts(kept@) == texts(old_list@).subrange(0, i as int).filter(pred),
        decreases old_list.len() - i,
    {
        proof {
            reveal(Seq::filter);
            let p = texts(old_list@).subrange(0, i + 1);
            assert(p.drop_last() =~= texts(old_list@).subrange(0, i as int));
            assert(p.last() == old_list@[i as int]@);
        }
        if !(old_list[i] == key) {
            let ghost before = kept@;
            kept.push(old_list[i].clone());
            assert(texts(kept@) =~= texts(before).push(old_list@[i as int]@));
        }
        i = i + 1;
    }
    assert(texts(old_list@).subrange(0, old_list.len() as int) =~= texts(old_list@));
    *list = kept;
}

/// Whether the list holds `folder`.
fn contains_text(list: &Vec<String>, folder: &str) -> (found: bool)
    ensures
        found == texts(list@).contains(folder@),
{
    let key = folder.to_owned();
    let mut i: usize = 0;
    while i < list.len()
        invariant
            i <= list.len(),
            key@ == folder@,
            forall|j: int| 0 <= j < i ==> list@[j]@ != folder@,
        decreases list.len() - i,
    {
        if list[i] == key {
            assert(texts(list@)[i as int] == folder@);
            return true;
        }
        i = i + 1;
    }
    proof {
        if texts(list@).contains(folder@) {
            let j = choose|j: int| 0 <= j < texts(list@).len() && texts(list@)[j] == folder@;
            assert(list@[j]@ == folder@);
        }
    }
    false
}

/// Add a folder to the recent folders list (max 5): it moves to the front.
pub fn add_recent_folder(recent_folders: &mut Vec<String>, folder: &str)
    ensures
        texts(final(recent_folders)@) == recent_after(texts(old(recent_folders)@), folder@),
{
    remove_text(recent_folders, folder);
    let ghost rest = texts(recent_folders@);
    recent_folders.insert(0, folder.to_owned());
    assert(texts(recent_folders@) =~= seq![folder@] + rest);
    let ghost list = texts(recent_folders@);
    recent_folders.truncate(MAX_RECENT_FOLDERS);
    assert(texts(recent_folders@) =~= (if list.len() > MAX_RECENT_FOLDERS {
        list.subrange(0, MAX_RECENT_FOLDERS as int)
    } else {
        list
    }));
}

/// Add a folder to the favorites, unless it is already there. Fails with
/// `Folder does not exist` when the caller found no such folder; otherwise
/// tells whether the favorites changed (and so need saving).
pub fn add_favorite_folder(folder_exists: bool, favorite_folders: &mut Vec<String>, folder: &str) -> (result: Result<bool, String>)
    ensures
        !folder_exists ==> (result matches Err(e) && e@ == "Folder does not exist"@) && final(favorite_folders)@ == old(favorite_folders)@,
        folder_exists ==> result == Ok::<bool, String>(!texts(old(favorite_folders)@).contains(folder@)),
        folder_exists ==> texts(final(favorite_folders)@) == with_favorite(texts(old(favorite_folders)@), folder@),
        folder_exists && texts(old(favorite_folders)@).contains(folder@) ==> final(favorite_folders)@ == old(favorite_folders)@,
{
    if !folder_exists {
        proof {
            reveal_strlit("Folder does not exist");
        }
        return Err("Folder does not exist".to_owned());
    }
    if contains_text(favorite_folders, folder) {
        Ok(false)
    } else {
        let ghost before = texts(favorite_folders@);
        favorite_folders.push(folder.to_owned());
        assert(texts(favorite_folders@) =~= before.push(folder@));
        Ok(true)
    }
}

/// Remove a folder from favorites.
pub fn remove_favorite_folder(favorite_folders: &mut Vec<String>, folder: &str)
    ensures
        texts(final(favorite_folders)@) == without(texts(old(favorite_folders)@), folder@),
{
    remove_text(favorite_folders, folder);
}

/// Set the output folder, and move it to the front of the recent folders.
/// Fails with `Folder does not exist`, changing nothing, when the caller
/// found no such folder.
pub fn set_output_folder(
    folder_exists: bool,
    output_folder: &mut Option<String>,
    recent_folders: &mut Vec<String>,
    folder: &str,
) -> (result: Result<(), String>)
    ensures
        !folder_exists ==> (result matches Err(e) && e@ == "Folder does not exist"@)
            && *final(output_folder) == *old(output_folder)
            && final(recent_folders)@ == old(recent_folders)@,
        folder_exists ==> result is Ok && (*final(output_folder) matches Some(f) && f@ == folder@)
            && texts(final(recent_folders)@) == recent_after(texts(old(recent_folders)@), folder@),
{
    if !folder_exists {
        proof {
            reveal_strlit("Folder does not exist");
        }
        return Err("Folder does not exist".to_owned());
    }
    *output_folder = Some(folder.to_owned());
    add_recent_folder(recent_folders, folder);
    Ok(())
}

// ---------------------------------------------------------------------------
// Laws
// ---------------------------------------------------------------------------

/// After a folder is used it heads the recent folders, occurs there once, and
/// at most five folders are kept.
pub proof fn lemma_recent_folder_first_and_unique(recent: Seq<Seq<char>>, folder: Seq<char>)
    ensures
        recent_after(recent, folder)[0] == folder,
        1 <= recent_after(recent, folder).len() <= MAX_RECENT_FOLDERS,
        forall|i: int|
            1 <= i < recent_after(recent, folder).len() ==> #[trigger] recent_after(recent, folder)[i]
                != folder,
{
    broadcast use vstd::seq_lib::group_filter_ensures;
    let rest = without(recent, folder);
    let list = seq![folder] + rest;
    assert forall|i: int| 1 <= i < list.len() implies #[trigger] list[i] != folder by {
        assert(list[i] == rest[i - 1]);
    }
}

/// Where each kept entry of `without(s, folder)` stands in `s`: the indices
/// rise, so the entries keep their order.
proof fn lemma_without_indices(s: Seq<Seq<char>>, folder: Seq<char>) -> (idx: Seq<int>)
    ensures
        idx.len() == without(s, folder).len(),
        forall|i: int|
            0 <= i < idx.len() ==> 0 <= #[trigger] idx[i] < s.len() && s[idx[i]] == without(
                s,
                folder,
            )[i],
        forall|i: int, j: int| 0 <= i < j < idx.len() ==> #[trigger] idx[i] < #[trigger] idx[j],
    decreases s.len(),
{
    reveal(Seq::filter);
    if s.len() == 0 {
        Seq::empty()
    } else {
        let prev = lemma_without_indices(s.drop_last(), folder);
        let w0 = without(s.drop_last(), folder);
        if s.last() != folder {
            assert(without(s, folder) == w0.push(s.last()));
            let idx = prev.push(s.len() - 1);
            assert forall|i: int| 0 <= i < idx.len() implies 0 <= #[trigger] idx[i] < s.len()
                && s[idx[i]] == without(s, folder)[i] by {
                if i < prev.len() {
                    assert(idx[i] == prev[i]);
                    assert(s.drop_last()[prev[i]] == s[prev[i]]);
                }
            }
            assert forall|i: int, j: int| 0 <= i < j < idx.len() implies #[trigger] idx[i]
                < #[trigger] idx[j] by {
                if j < prev.len() {
                    assert(idx[i] == prev[i] && idx[j] == prev[j]);
                } else {
                    assert(idx[i] == prev[i]);
                }
            }
            idx
        } else {
            assert(without(s, folder) == w0);
            assert forall|i: int| 0 <= i < prev.len() implies 0 <= #[trigger] prev[i] < s.len()
                && s[prev[i]] == without(s, folder)[i] by {
                assert(s.drop_last()[prev[i]] == s[prev[i]]);
            }
            prev
        }
    }
}

/// Whether `x` and `y` occur in `list` with `x` before `y`.
pub open spec fn stands_before(list: Seq<Seq<char>>, x: Seq<char>, y: Seq<char>) -> bool {
    exists|a: int, b: int|
        0 <= a < b < list.len() && #[trigger] list[a] == x && #[trigger] list[b] == y
}

/// After a folder is used, the other recent folders are earlier recent
/// folders, in their earlier order; and when the recent folders held no
/// folder twice, they still do not.
pub proof fn lemma_recent_folder_keeps_order(recent: Seq<Seq<char>>, folder: Seq<char>)
    ensures
        forall|i: int|
            1 <= i < recent_after(recent, folder).len() ==> recent.contains(
                #[trigger] recent_after(recent, folder)[i],
            ),
        forall|i: int, j: int|
            1 <= i < j < recent_after(recent, folder).len() ==> stands_before(
                recent,
                #[trigger] recent_after(recent, folder)[i],
                #[trigger] recent_after(recent, folder)[j],
            ),
        recent.no_duplicates() ==> recent_after(recent, folder).no_duplicates(),
{
    let w = without(recent, folder);
    let r = recent_after(recent, folder);
    let idx = lemma_without_indices(recent, folder);
    lemma_recent_folder_first_and_unique(recent, folder);
    assert forall|i: int| 1 <= i < r.len() implies #[trigger] r[i] == w[i - 1] && 0 <= idx[i - 1]
        < recent.len() && recent[idx[i - 1]] == w[i - 1] by {
        assert((seq![folder] + w)[i] == w[i - 1]);
    }
    assert forall|i: int| 1 <= i < r.len() implies recent.contains(#[trigger] r[i]) by {
        assert(recent[idx[i - 1]] == r[i]);
    }
    assert forall|i: int, j: int| 1 <= i < j < r.len() implies stands_before(
        recent,
        #[trigger] r[i],
        #[trigger] r[j],
    ) by {
        let a = idx[i - 1];
        let b = idx[j - 1];
        assert(r[i] == w[i - 1] && r[j] == w[j - 1]);
        assert(a < b);
        assert(recent[a] == r[i] && recent[b] == r[j]);
    }
    if recent.no_duplicates() {
        assert forall|i: int, j: int| 0 <= i < r.len() && 0 <= j < r.len() && i != j implies r[i]
            != r[j] by {
            if i == 0 {
                assert(r[j] != folder);
            } else if j == 0 {
                assert(r[i] != folder);
            } else {
                assert(r[i] == w[i - 1] && r[j] == w[j - 1]);
                if i < j {
                    assert(idx[i - 1] < idx[j - 1]);
                } else {
                    assert(idx[j - 1] < idx[i - 1]);
                }
                assert(recent[idx[i - 1]] == r[i] && recent[idx[j - 1]] == r[j]);
            }
        }
    }
}

/// Adding the same favorite twice leaves the favorites as adding it once.
pub proof fn lemma_adding_favorite_twice(favorites: Seq<Seq<char>>, folder: Seq<char>)
    ensures
        with_favorite(with_favorite(favorites, folder), folder) == with_favorite(favorites, folder),
        with_favorite(favorites, folder).contains(folder),
{
    if !favorites.contains(folder) {
        assert(favorites.push(folder)[favorites.len() as int] == folder);
    }
}

proof fn lemma_without_absent(s: Seq<Seq<char>>, folder: Seq<char>)
    requires
        !s.contains(folder),
    ensures
        without(s, folder) == s,
    decreases s.len(),
{
    reveal(Seq::filter);
    if s.len() > 0 {
        assert(!s.drop_last().contains(folder)) by {
            if s.drop_last().contains(folder) {
                let j = choose|j: int| 0 <= j < s.drop_last().len() && s.drop_last()[j] == folder;
                assert(s[j] == folder);
            }
        }
        lemma_without_absent(s.drop_last(), folder);
        assert(s.last() != folder) by {
            if s.last() == folder {
                assert(s[s.len() - 1] == folder);
            }
        }
        assert(s.drop_last().push(s.last()) =~= s);
    }
}

/// Using the same folder twice in a row leaves the recent folders as using
/// it once.
pub proof fn lemma_recent_folder_twice(recent: Seq<Seq<char>>, folder: Seq<char>)
    ensures
        recent_after(recent_after(recent, folder), folder) == recent_after(recent, folder),
{
    broadcast use vstd::seq_lib::group_filter_ensures;
    let w = without(recent, folder);
    assert(!w.contains(folder)) by {
        if w.contains(folder) {
            let j = choose|j: int| 0 <= j < w.len() && w[j] == folder;
            assert((|f: Seq<char>| f != folder)(w[j]));
        }
    }
    let first = recent_after(recent, folder);
    let kept = if w.len() > 4 {
        w.subrange(0, 4)
    } else {
        w
    };
    assert(first =~= seq![folder] + kept);
    assert(!kept.contains(folder)) by {
        if kept.contains(folder) {
            let j = choose|j: int| 0 <= j < kept.len() && kept[j] == folder;
            assert(w[j] == folder);
        }
    }
    Seq::filter_distributes_over_add(seq![folder], kept, |f: Seq<char>| f != folder);
    reveal(Seq::filter);
    assert(without(seq![folder], folder) =~= Seq::<Seq<char>>::empty()) by {
        reveal_with_fuel(Seq::filter, 2);
        assert(seq![folder].drop_last() =~= Seq::<Seq<char>>::empty());
        assert(seq![folder].last() == folder);
    }
    lemma_without_absent(kept, folder);
    assert(without(first, folder) =~= kept);
    assert(seq![folder] + without(first, folder) =~= first);
}

/// After a folder is removed from the favorites it is no longer among them.
pub proof fn lemma_removed_favorite_absent(favorites: Seq<Seq<char>>, folder: Seq<char>)
    ensures
        !without(favorites, folder).contains(folder),
{
    broadcast use vstd::seq_lib::group_filter_ensures;
    if without(favorites, folder).contains(folder) {
        let j = choose|j: int|
            0 <= j < without(favorites, folder).len() && without(favorites, folder)[j] == folder;
        assert((|f: Seq<char>| f != folder)(without(favorites, folder)[j]));
    }
}

} // verus!
