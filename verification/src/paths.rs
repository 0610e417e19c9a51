//! Where files are: a folder, and a name in it.

use vstd::prelude::*;
use vstd::slice::slice_subrange;

use crate::chooser;
use crate::text;

verus! {

/// Where the last `c` stands in the first `n` characters.
pub open spec fn last_place(s: Seq<char>, c: char, n: int) -> Option<int>
    decreases n,
{
    if n <= 0 {
        None
    } else if s[n - 1] == c {
        Some(n - 1)
    } else {
        last_place(s, c, n - 1)
    }
}

/// Where a name's extension starts: at its last dot. A dot that the name begins
/// with starts none, and the name of a parent folder has none.
pub open spec fn dot(name: Seq<char>) -> Option<int> {
    match last_place(name, '.', name.len() as int) {
        Some(p) => if p == 0 || name == ".."@ {
            None
        } else {
            Some(p)
        },
        None => None,
    }
}

/// A name without its extension.
pub open spec fn stem(name: Seq<char>) -> Seq<char> {
    match dot(name) {
        Some(p) => name.take(p),
        None => name,
    }
}

/// A name with another extension; the name of a parent folder stays as it is.
pub open spec fn renamed(name: Seq<char>, extension: Seq<char>) -> Seq<char> {
    if name.len() == 0 || name == ".."@ {
        name
    } else {
        stem(name) + "."@ + extension
    }
}

/// A name's extension, without the dot.
pub open spec fn extension(name: Seq<char>) -> Option<Seq<char>> {
    match dot(name) {
        Some(p) => Some(name.skip(p + 1)),
        None => None,
    }
}

/// A folder: a path, or a folder right inside it by its name. What stands between
/// the two depends on the system.
#[derive(Clone, Debug, PartialEq, Eq)]
pub struct Folder {
    pub path: String,
    pub inside: Option<String>,
}

/// A folder as plain text.
#[verifier::ext_equal]
pub struct Within {
    pub path: Seq<char>,
    pub inside: Option<Seq<char>>,
}

/// The folder that a path leads to.
pub open spec fn at(path: Seq<char>) -> Within {
    Within { path, inside: None }
}

/// The folder of that name in the one that a path leads to.
pub open spec fn inside(path: Seq<char>, name: Seq<char>) -> Within {
    Within { path, inside: Some(name) }
}

impl View for Folder {
    type V = Within;

    open spec fn view(&self) -> Within {
        Within { path: self.path@, inside: chooser::maybe(self.inside) }
    }
}

impl Folder {
    pub fn at(path: &str) -> (f: Folder)
        ensures
            f@ == at(path@),
    {
        Folder { path: path.to_owned(), inside: None }
    }

    pub fn inside(path: &str, name: &str) -> (f: Folder)
        ensures
            f@ == inside(path@, name@),
    {
        Folder { path: path.to_owned(), inside: Some(name.to_owned()) }
    }

    /// The same folder.
    pub fn copy(&self) -> (f: Folder)
        ensures
            f@ == self@,
    {
        Folder { path: self.path.clone(), inside: chooser::copied(&self.inside) }
    }
}

/// A file: the folder it is in, and its name there.
#[derive(Clone, Debug, PartialEq, Eq)]
pub struct FilePath {
    pub folder: Folder,
    pub name: String,
}

/// A file as plain text.
#[verifier::ext_equal]
pub struct Place {
    pub folder: Within,
    pub name: Seq<char>,
}

impl View for FilePath {
    type V = Place;

    open spec fn view(&self) -> Place {
        Place { folder: self.folder@, name: self.name@ }
    }
}

fn find_dot(name: &[char]) -> (r: Option<usize>)
    ensures
        match dot(name@) {
            Some(p) => r matches Some(q) && q == p && 0 < q < name.len(),
            None => r is None,
        },
{
    if text::same(name, &text::chars_of("..")) {
        return None;
    }
    let mut n: usize = name.len();
    while n > 0
        invariant
            n <= name.len(),
            last_place(name@, '.', name@.len() as int) == last_place(name@, '.', n as int),
            name@ != ".."@,
        decreases n,
    {
        if name[n - 1] == '.' {
            return if n == 1 {
                None
            } else {
                Some(n - 1)
            };
        }
        n = n - 1;
    }
    None
}

impl FilePath {
    pub fn new(folder: &str, name: &str) -> (f: FilePath)
        ensures
            f@ == (Place { folder: at(folder@), name: name@ }),
    {
        FilePath { folder: Folder::at(folder), name: name.to_owned() }
    }

    /// The same file.
    pub fn copy(&self) -> (f: FilePath)
        ensures
            f@ == self@,
    {
        FilePath { folder: self.folder.copy(), name: self.name.clone() }
    }

    /// The file next to it with another extension.
    pub fn with_extension(&self, ext: &str) -> (f: FilePath)
        ensures
            f@ == (Place { folder: self@.folder, name: renamed(self@.name, ext@) }),
    {
        let name = text::chars_of(self.name.as_str());
        if name.len() == 0 || text::same(&name, &text::chars_of("..")) {
            return self.copy();
        }
        let mut out = match find_dot(&name) {
            Some(p) => text::text_of(slice_subrange(&name, 0, p)),
            None => self.name.clone(),
        };
        out.append(".");
        out.append(ext);
        FilePath { folder: self.folder.copy(), name: out }
    }

    /// Its extension, without the dot.
    pub fn extension(&self) -> (r: Option<String>)
        ensures
            match extension(self@.name) {
                Some(e) => r matches Some(x) && x@ == e,
                None => r is None,
            },
    {
        let name = text::chars_of(self.name.as_str());
        match find_dot(&name) {
            Some(p) => {
                let e = slice_subrange(&name, p + 1, name.len());
                assert(e@ == name@.skip(p + 1));
                Some(text::text_of(e))
            },
            None => None,
        }
    }
}

proof fn lemma_last_place(s: Seq<char>, c: char, n: int)
    requires
        0 <= n <= s.len(),
    ensures
        match last_place(s, c, n) {
            Some(p) => 0 <= p < n && s[p] == c && forall|j: int|
                p < j < n ==> #[trigger] s[j] != c,
            None => forall|j: int| 0 <= j < n ==> #[trigger] s[j] != c,
        },
    decreases n,
{
    if n > 0 && s[n - 1] != c {
        lemma_last_place(s, c, n - 1);
    }
}

/// A name is parted at its last dot into its stem and its extension. A name without a
/// dot, with one only at its beginning, and that of a parent folder have none.
pub proof fn law_names_are_parted_at_the_last_dot(name: Seq<char>, ext: Seq<char>)
    ensures
        match extension(name) {
            Some(e) => name == stem(name).push('.') + e && stem(name).len() > 0 && !e.contains('.'),
            None => stem(name) == name && (name == ".."@ || forall|i: int|
                0 < i < name.len() ==> #[trigger] name[i] != '.'),
        },
        name == ".."@ ==> extension(name) is None,
        name.len() > 0 && name != ".."@ ==> renamed(name, ext) == stem(name).push('.') + ext,
        name.len() == 0 || name == ".."@ ==> renamed(name, ext) == name,
{
    reveal_strlit(".");
    lemma_last_place(name, '.', name.len() as int);
    assert(stem(name) + "."@ + ext =~= stem(name).push('.') + ext);
    if let Some(p) = dot(name) {
        let e = name.skip(p + 1);
        assert(name =~= name.take(p).push('.') + e);
        if e.contains('.') {
            let i = choose|i: int| 0 <= i < e.len() && e[i] == '.';
            assert(name[p + 1 + i] == '.');
        }
    }
}

/// A folder is where its path leads, or right inside it.
pub proof fn law_folders_are_paths_or_inside_them(path: Seq<char>, name: Seq<char>)
    ensures
        at(path).path == path && at(path).inside is None,
        inside(path, name).path == path && inside(path, name).inside == Some(name),
{
}

} // verus!
