//! Finding the root directory of a project from what its directories hold.
//!
//! The caller lists the entries of the file's path and of each directory above
//! it, nearest first; the functions here decide which of them is the root.

use vstd::prelude::*;

verus! {

/// The text of each string.
pub open spec fn texts(strings: Seq<String>) -> Seq<Seq<char>> {
    strings.map_values(|s: String| s@)
}

/// The text of each name.
pub open spec fn name_texts(names: Seq<&'static str>) -> Seq<Seq<char>> {
    names.map_values(|n: &'static str| n@)
}

/// The entries of each directory.
pub open spec fn dir_texts(dirs: Seq<Vec<String>>) -> Seq<Seq<Seq<char>>> {
    dirs.map_values(|d: Vec<String>| texts(d@))
}

/// The names of each group.
pub open spec fn group_texts(groups: Seq<Vec<&'static str>>) -> Seq<Seq<Seq<char>>> {
    groups.map_values(|g: Vec<&'static str>| name_texts(g@))
}

/// Whether some entry has one of the names.
pub open spec fn has_any(entries: Seq<Seq<char>>, names: Seq<Seq<char>>) -> bool {
    exists|j: int| 0 <= j < names.len() && entries.contains(#[trigger] names[j])
}

/// The nearest directory that holds one of the names, if there is one.
pub open spec fn first_with(dirs: Seq<Seq<Seq<char>>>, names: Seq<Seq<char>>) -> Option<int>
    decreases dirs.len(),
{
    if dirs.len() == 0 {
        None
    } else {
        match first_with(dirs.drop_last(), names) {
            Some(i) => Some(i),
            None => if has_any(dirs.last(), names) {
                Some(dirs.len() - 1)
            } else {
                None
            },
        }
    }
}

/// The directory that the first group finds which finds one at all.
pub open spec fn first_in_groups(dirs: Seq<Seq<Seq<char>>>, groups: Seq<Seq<Seq<char>>>) -> Option<
    int,
>
    decreases groups.len(),
{
    if groups.len() == 0 {
        None
    } else {
        match first_in_groups(dirs, groups.drop_last()) {
            Some(i) => Some(i),
            None => first_with(dirs, groups.last()),
        }
    }
}

/// The names that mark the root of a project in the language, in groups that
/// are tried one after another; `None` for an unknown language.
pub open spec fn marker_groups(language: Seq<char>) -> Option<Seq<Seq<Seq<char>>>> {
    if language == "rust"@ {
        Some(seq![seq!["Cargo.toml"@]])
    } else if language == "php"@ {
        Some(seq![seq!["composer.json"@]])
    } else if language == "javascript"@ || language == "typescript"@ {
        Some(seq![seq!["package.json"@]])
    } else if language == "python"@ {
        Some(seq![seq!["__init__.py"@, "setup.py"@]])
    } else if language == "cs"@ {
        Some(seq![seq!["project.json"@, ".csproj"@]])
    } else if language == "java"@ {
        Some(seq![seq![".project"@, "pom.xml"@]])
    } else if language == "haskell"@ {
        Some(seq![seq!["stack.yaml"@], seq![".cabal"@]])
    } else {
        None
    }
}

/// The names that mark a directory under version control.
pub open spec fn vcs_markers() -> Seq<Seq<char>> {
    seq![".git"@, ".hg"@, ".svn"@]
}

/// The place of the project's root among the directories: the nearest that
/// holds a marker of the language; else the nearest under version control;
/// else the second, which is the file's parent; else none.
pub open spec fn root_place(language: Seq<char>, dirs: Seq<Seq<Seq<char>>>) -> Option<int> {
    let by_language = match marker_groups(language) {
        Some(groups) => first_in_groups(dirs, groups),
        None => None,
    };
    if by_language is Some {
        by_language
    } else if first_with(dirs, vcs_markers()) is Some {
        first_with(dirs, vcs_markers())
    } else if dirs.len() >= 2 {
        Some(1)
    } else {
        None
    }
}

/// Whether two strings hold the same text.
pub fn same_text(a: &str, b: &str) -> (same: bool)
    ensures
        same == (a@ == b@),
{
    a.to_owned() == b.to_owned()
}

/// Whether some entry has the name.
pub fn holds_name(entries: &Vec<String>, name: &str) -> (b: bool)
    ensures
        b == texts(entries@).contains(name@),
{
    let mut i: usize = 0;
    while i < entries.len()
        invariant
            i <= entries@.len(),
            forall|k: int| 0 <= k < i ==> (#[trigger] texts(entries@)[k]) != name@,
        decreases entries@.len() - i,
    {
        if same_text(entries[i].as_str(), name) {
            assert(texts(entries@)[i as int] == name@);
            return true;
        }
        i += 1;
    }
    false
}

/// Whether some entry has one of the names.
pub fn holds_any(entries: &Vec<String>, names: &Vec<&'static str>) -> (b: bool)
    ensures
        b == has_any(texts(entries@), name_texts(names@)),
{
    let mut j: usize = 0;
    while j < names.len()
        invariant
            j <= names@.len(),
            forall|k: int|
                0 <= k < j ==> !texts(entries@).contains(#[trigger] name_texts(names@)[k]),
        decreases names@.len() - j,
    {
        if holds_name(entries, names[j]) {
            assert(name_texts(names@)[j as int] == names@[j as int]@);
            return true;
        }
        assert(name_texts(names@)[j as int] == names@[j as int]@);
        j += 1;
    }
    false
}

/// Whether the directory holds what marks a .NET project.
pub fn is_dotnet_root(entries: &Vec<String>) -> (b: bool)
    ensures
        b == (texts(entries@).contains("project.json"@) || texts(entries@).contains(".csproj"@)),
{
    holds_name(entries, "project.json") || holds_name(entries, ".csproj")
}

/// A directory found among the nearest `n` is the one found among all.
pub proof fn lemma_first_with_prefix(dirs: Seq<Seq<Seq<char>>>, names: Seq<Seq<char>>, n: int)
    requires
        0 <= n <= dirs.len(),
        first_with(dirs.take(n), names) is Some,
    ensures
        first_with(dirs, names) == first_with(dirs.take(n), names),
    decreases dirs.len(),
{
    if n == dirs.len() {
        assert(dirs.take(n) == dirs);
    } else {
        assert(dirs.drop_last().take(n) == dirs.take(n));
        lemma_first_with_prefix(dirs.drop_last(), names, n);
    }
}

/// The nearest directory that holds one of the names: the place in `dirs` of
/// the first one that does.
pub fn traverse_up(dirs: &Vec<Vec<String>>, names: &Vec<&'static str>) -> (r: Option<usize>)
    ensures
        r is Some == first_with(dir_texts(dirs@), name_texts(names@)) is Some,
        r matches Some(i) ==> i < dirs@.len() && first_with(dir_texts(dirs@), name_texts(names@))
            == Some(i as int),
{
    let ghost all = dir_texts(dirs@);
    let ghost wanted = name_texts(names@);
    let mut i: usize = 0;
    assert(all.take(0).len() == 0);
    while i < dirs.len()
        invariant
            i <= dirs@.len(),
            all == dir_texts(dirs@),
            wanted == name_texts(names@),
            first_with(all.take(i as int), wanted) is None,
        decreases dirs@.len() - i,
    {
        proof {
            assert(all.take(i + 1).drop_last() == all.take(i as int));
            assert(all.take(i + 1).last() == texts(dirs@[i as int]@));
        }
        if holds_any(&dirs[i], names) {
            proof {
                lemma_first_with_prefix(all, wanted, i + 1);
            }
            return Some(i);
        }
        i += 1;
    }
    assert(all.take(i as int) == all);
    None
}

/// The groups of names that mark the root of a project in the language.
pub fn language_markers(language_id: &str) -> (r: Option<Vec<Vec<&'static str>>>)
    ensures
        r is Some == marker_groups(language_id@) is Some,
        r matches Some(groups) ==> Some(group_texts(groups@)) == marker_groups(language_id@),
{
    let groups: Vec<Vec<&'static str>> = if same_text(language_id, "rust") {
        vec![vec!["Cargo.toml"]]
    } else if same_text(language_id, "php") {
        vec![vec!["composer.json"]]
    } else if same_text(language_id, "javascript") || same_text(language_id, "typescript") {
        vec![vec!["package.json"]]
    } else if same_text(language_id, "python") {
        vec![vec!["__init__.py", "setup.py"]]
    } else if same_text(language_id, "cs") {
        vec![vec!["project.json", ".csproj"]]
    } else if same_text(language_id, "java") {
        vec![vec![".project", "pom.xml"]]
    } else if same_text(language_id, "haskell") {
        vec![vec!["stack.yaml"], vec![".cabal"]]
    } else {
        return None;
    };
    proof {
        let expected = marker_groups(language_id@)->0;
        assert(group_texts(groups@).len() == expected.len());
        assert forall|g: int| 0 <= g < expected.len() implies group_texts(groups@)[g]
            =~= expected[g] by {
            assert(group_texts(groups@)[g] == name_texts(groups@[g]@));
        }
        assert(group_texts(groups@) =~= expected);
    }
    Some(groups)
}

/// A directory found by the first `n` groups is the one found by all.
pub proof fn lemma_first_in_groups_prefix(
    dirs: Seq<Seq<Seq<char>>>,
    groups: Seq<Seq<Seq<char>>>,
    n: int,
)
    requires
        0 <= n <= groups.len(),
        first_in_groups(dirs, groups.take(n)) is Some,
    ensures
        first_in_groups(dirs, groups) == first_in_groups(dirs, groups.take(n)),
    decreases groups.len(),
{
    if n == groups.len() {
        assert(groups.take(n) == groups);
    } else {
        assert(groups.drop_last().take(n) == groups.take(n));
        lemma_first_in_groups_prefix(dirs, groups.drop_last(), n);
    }
}

/// The directory that the first group finds which finds one at all.
pub fn traverse_groups(dirs: &Vec<Vec<String>>, groups: &Vec<Vec<&'static str>>) -> (r: Option<
    usize,
>)
    ensures
        r is Some == first_in_groups(dir_texts(dirs@), group_texts(groups@)) is Some,
        r matches Some(i) ==> i < dirs@.len() && first_in_groups(
            dir_texts(dirs@),
            group_texts(groups@),
        ) == Some(i as int),
{
    let ghost all = dir_texts(dirs@);
    let ghost wanted = group_texts(groups@);
    let mut g: usize = 0;
    assert(wanted.take(0).len() == 0);
    while g < groups.len()
        invariant
            g <= groups@.len(),
            all == dir_texts(dirs@),
            wanted == group_texts(groups@),
            first_in_groups(all, wanted.take(g as int)) is None,
        decreases groups@.len() - g,
    {
        proof {
            assert(wanted.take(g + 1).drop_last() == wanted.take(g as int));
            assert(wanted.take(g + 1).last() == name_texts(groups@[g as int]@));
        }
        match traverse_up(dirs, &groups[g]) {
            Some(i) => {
                proof {
                    lemma_first_in_groups_prefix(all, wanted, g + 1);
                }
                return Some(i);
            },
            None => {},
        }
        g += 1;
    }
    assert(wanted.take(g as int) == wanted);
    None
}

/// The place in `dirs` of the project's root. `dirs` lists the entries of the
/// file's path, then of its parent, and so on upward.
///
/// The root is the nearest directory that holds a marker of the language; for
/// an unknown language, or where no directory holds one, the nearest under
/// version control; failing that, the file's parent. `None` where there is no
/// parent either.
#[allow(non_snake_case)]
pub fn get_rootPath(dirs: &Vec<Vec<String>>, languageId: &str) -> (r: Option<usize>)
    ensures
        r is Some == root_place(languageId@, dir_texts(dirs@)) is Some,
        r matches Some(i) ==> i < dirs@.len() && root_place(languageId@, dir_texts(dirs@)) == Some(
            i as int,
        ),
{
    let by_language = match language_markers(languageId) {
        Some(groups) => traverse_groups(dirs, &groups),
        None => None,
    };
    if by_language.is_some() {
        return by_language;
    }
    let vcs: Vec<&'static str> = vec![".git", ".hg", ".svn"];
    assert(name_texts(vcs@) =~= vcs_markers());
    let by_vcs = traverse_up(dirs, &vcs);
    if by_vcs.is_some() {
        return by_vcs;
    }
    if dirs.len() >= 2 {
        Some(1)
    } else {
        None
    }
}

} // verus!
