use vstd::prelude::*;
use vstd::string::*;

use crate::addresses::{parse_url, parsed_url};
use crate::parse_code::texts;
use crate::resolve::holds_text;
use crate::syntax::text_of;

verus! {

/// Whether a path starts with a tilde that stands for the home directory.
pub open spec fn tilde_path(path: Seq<char>) -> bool {
    path.len() > 0 && path[0] == '~' && (path.len() == 1 || path[1] == '/' || path[1] == '\\')
}

/// Puts the home directory in place of a tilde at the start of a path, with
/// `shellexpand::tilde`.
///
/// Believed of it: a path without such a tilde stays as it is, and in one with it nothing behind
/// the tilde changes. What the home directory is depends on the machine, so nothing is claimed of
/// it.
#[verifier::external_body]
fn expand_tilde(path: &str) -> (expanded: String)
    ensures
        !tilde_path(path@) ==> expanded@ == path@,
        tilde_path(path@) ==> expanded@ == path@ || path@.skip(1).is_suffix_of(expanded@),
{
    shellexpand::tilde(path).to_string()
}

/// The address of a directory as a text: with the scheme in front and a slash at the end.
pub open spec fn directory_text(path: Seq<char>) -> Seq<char> {
    let text = "file://"@ + path;
    if text.last() == '/' {
        text
    } else {
        text + "/"@
    }
}

/// Whether an address is that of a directory: it has the scheme of files, and a slash at its end.
pub open spec fn directory_address(url: Seq<char>) -> bool {
    "file://"@.is_prefix_of(url) && url.last() == '/'
}

/// The address of a library at a path without a tilde, if it has one.
pub open spec fn library_at(path: Seq<char>) -> Option<Seq<char>> {
    if path.len() == 0 {
        None
    } else {
        parsed_url(directory_text(path))
    }
}

/// The address of a library at a path without a tilde, if it has one.
pub fn library_url_at(path: &str) -> (url: Option<String>)
    ensures
        text_of(url) == library_at(path@),
        url is Some ==> directory_address(url->0@),
{
    if path.unicode_len() == 0 {
        return None;
    }
    let mut text = "file://".to_owned();
    text.append(path);
    let n: usize = text.as_str().unicode_len();
    proof {
        reveal_strlit("file://");
        reveal_strlit("/");
    }
    if text.as_str().get_char(n - 1) != '/' {
        text.append("/");
    }
    parse_url(text.as_str())
}

/// Whether a path can be another with the home directory in place of a tilde.
pub open spec fn expansion(path: Seq<char>, expanded: Seq<char>) -> bool {
    expanded == path || (tilde_path(path) && path.skip(1).is_suffix_of(expanded))
}

/// The addresses of the libraries at some paths, in order.
pub open spec fn libraries_at(paths: Seq<Seq<char>>) -> Seq<Seq<char>>
    decreases paths.len(),
{
    if paths.len() == 0 {
        Seq::empty()
    } else {
        match library_at(paths.last()) {
            Some(url) => libraries_at(paths.drop_last()).push(url),
            None => libraries_at(paths.drop_last()),
        }
    }
}

/// The addresses of the libraries at some paths without tildes, in order. A path that is empty or
/// has no address is passed over.
pub fn library_urls_at(paths: &Vec<String>) -> (urls: Vec<String>)
    ensures
        texts(urls@) == libraries_at(texts(paths@)),
        all_directories(texts(urls@)),
{
    let ghost all = texts(paths@);
    let mut urls: Vec<String> = Vec::new();
    assert(all.take(0) =~= Seq::empty());
    assert(texts(urls@) =~= libraries_at(all.take(0)));
    let mut k: usize = 0;
    while k < paths.len()
        invariant
            k <= paths@.len(),
            all == texts(paths@),
            texts(urls@) == libraries_at(all.take(k as int)),
            all_directories(texts(urls@)),
        decreases paths@.len() - k,
    {
        let ghost before = texts(urls@);
        proof {
            assert(all.take(k + 1).drop_last() =~= all.take(k as int));
            assert(all.take(k + 1).last() == paths@[k as int]@);
        }
        match library_url_at(paths[k].as_str()) {
            Some(url) => {
                urls.push(url);
                assert(texts(urls@) =~= before.push(url@));
            },
            None => {},
        }
        k += 1;
    }
    assert(all.take(paths@.len() as int) =~= all);
    urls
}

/// Whether paths can be others with the home directory in place of tildes.
pub open spec fn expansions(paths: Seq<Seq<char>>, expanded: Seq<Seq<char>>) -> bool {
    expanded.len() == paths.len() && forall|k: int|
        0 <= k < paths.len() ==> expansion(paths[k], #[trigger] expanded[k])
}

/// The addresses of libraries, in order. A tilde at the start of a path stands for the home
/// directory, which is up to the machine; whatever it is, the addresses are those that
/// [`library_urls_at`] gives.
pub fn library_urls(paths: &Vec<String>) -> (urls: Vec<String>)
    ensures
        exists|expanded: Seq<Seq<char>>| #[trigger]
            expansions(texts(paths@), expanded) && texts(urls@) == libraries_at(expanded),
        (forall|k: int| 0 <= k < paths@.len() ==> !tilde_path((#[trigger] paths@[k])@)) ==> texts(
            urls@,
        ) == libraries_at(texts(paths@)),
        all_directories(texts(urls@)),
{
    let mut expanded: Vec<String> = Vec::new();
    let mut k: usize = 0;
    while k < paths.len()
        invariant
            k <= paths@.len(),
            expanded@.len() == k,
            forall|j: int|
                0 <= j < k ==> expansion(paths@[j]@, (#[trigger] expanded@[j])@),
        decreases paths@.len() - k,
    {
        expanded.push(expand_tilde(paths[k].as_str()));
        k += 1;
    }
    proof {
        let (from, to) = (texts(paths@), texts(expanded@));
        assert forall|k: int| 0 <= k < from.len() implies expansion(from[k], #[trigger] to[k]) by {
            assert(to[k] == expanded@[k]@);
        }
        assert(expansions(from, to));
        if forall|k: int| 0 <= k < paths@.len() ==> !tilde_path((#[trigger] paths@[k])@) {
            assert forall|k: int| 0 <= k < from.len() implies from[k] == to[k] by {
                assert(!tilde_path(paths@[k]@));
                assert(expansion(from[k], to[k]));
            }
            assert(from =~= to);
        }
    }
    library_urls_at(&expanded)
}

/// Those libraries of a list that are there.
pub open spec fn existing(urls: Seq<Seq<char>>, there: Seq<bool>) -> Seq<Seq<char>>
    decreases urls.len(),
{
    if urls.len() == 0 {
        Seq::empty()
    } else {
        let earlier = existing(urls.drop_last(), there);
        if urls.len() <= there.len() && there[urls.len() - 1] {
            earlier.push(urls.last())
        } else {
            earlier
        }
    }
}

/// Those libraries of a list that are there.
pub fn keep_existing(urls: &Vec<String>, there: &Vec<bool>) -> (kept: Vec<String>)
    ensures
        texts(kept@) == existing(texts(urls@), there@),
{
    let ghost all = texts(urls@);
    let mut kept: Vec<String> = Vec::new();
    assert(all.take(0) =~= Seq::empty());
    assert(texts(kept@) =~= existing(all.take(0), there@));
    let mut k: usize = 0;
    while k < urls.len()
        invariant
            k <= urls@.len(),
            all == texts(urls@),
            texts(kept@) == existing(all.take(k as int), there@),
        decreases urls@.len() - k,
    {
        let ghost before = texts(kept@);
        proof {
            assert(all.take(k + 1).drop_last() =~= all.take(k as int));
            assert(all.take(k + 1).last() == urls@[k as int]@);
        }
        if k < there.len() && there[k] {
            kept.push(urls[k].clone());
            assert(texts(kept@) =~= before.push(urls@[k as int]@));
        }
        k += 1;
    }
    assert(all.take(urls@.len() as int) =~= all);
    kept
}

/// A list with those of another added that it does not hold.
pub open spec fn with_new(list: Seq<Seq<char>>, more: Seq<Seq<char>>) -> Seq<Seq<char>>
    decreases more.len(),
{
    if more.len() == 0 {
        list
    } else {
        let earlier = with_new(list, more.drop_last());
        if earlier.contains(more.last()) {
            earlier
        } else {
            earlier.push(more.last())
        }
    }
}

/// Adds those texts of a list to another that it does not hold.
pub fn add_new(list: &mut Vec<String>, more: Vec<String>)
    ensures
        texts(final(list)@) == with_new(texts(old(list)@), texts(more@)),
{
    let ghost start = texts(list@);
    let ghost all = texts(more@);
    assert(all.take(0) =~= Seq::empty());
    let mut k: usize = 0;
    while k < more.len()
        invariant
            k <= more@.len(),
            all == texts(more@),
            texts(list@) == with_new(start, all.take(k as int)),
        decreases more@.len() - k,
    {
        let ghost before = texts(list@);
        proof {
            assert(all.take(k + 1).drop_last() =~= all.take(k as int));
            assert(all.take(k + 1).last() == more@[k as int]@);
        }
        if !holds_text(list, more[k].as_str()) {
            list.push(more[k].clone());
            assert(texts(list@) =~= before.push(more@[k as int]@));
        }
        k += 1;
    }
    assert(all.take(more@.len() as int) =~= all);
}

/// Adding texts to a list without doubles leaves it without doubles, and it holds them all.
pub proof fn law_adding_new(list: Seq<Seq<char>>, more: Seq<Seq<char>>)
    requires
        list.no_duplicates(),
    ensures
        with_new(list, more).no_duplicates(),
        list.is_prefix_of(with_new(list, more)),
        with_new(list, more).to_set() == list.to_set().union(more.to_set()),
    decreases more.len(),
{
    if more.len() == 0 {
        assert(list.to_set().union(more.to_set()) =~= list.to_set());
    } else {
        let rest = more.drop_last();
        let earlier = with_new(list, rest);
        let last = more.last();
        law_adding_new(list, rest);
        assert(rest.push(last) =~= more);
        crate::lists::lemma_push_to_set(rest, last);
        crate::lists::lemma_push_to_set(earlier, last);
        assert(list.to_set().union(more.to_set()) =~= list.to_set().union(rest.to_set()).insert(
            last,
        ));
        if earlier.contains(last) {
            assert(earlier.to_set().contains(last));
            assert(earlier.to_set().insert(last) =~= earlier.to_set());
        } else {
            assert(list.is_prefix_of(earlier.push(last)));
        }
    }
}

/// Adding the same texts twice is adding them once.
pub proof fn law_adding_twice_is_adding_once(list: Seq<Seq<char>>, more: Seq<Seq<char>>)
    ensures
        with_new(with_new(list, more), more) == with_new(list, more),
{
    let all = with_new(list, more);
    assert forall|k: int| 0 <= k < more.len() implies all.contains(#[trigger] more[k]) by {
        lemma_added(list, more, k);
    }
    lemma_nothing_new(all, more);
}

/// A list holds what was added to it.
proof fn lemma_added(list: Seq<Seq<char>>, more: Seq<Seq<char>>, k: int)
    requires
        0 <= k < more.len(),
    ensures
        with_new(list, more).contains(more[k]),
    decreases more.len(),
{
    let earlier = with_new(list, more.drop_last());
    let all = with_new(list, more);
    if k < more.len() - 1 {
        lemma_added(list, more.drop_last(), k);
        let j = choose|j: int| 0 <= j < earlier.len() && earlier[j] == more[k];
        assert(all[j] == more[k]);
    } else if !earlier.contains(more[k]) {
        assert(all[earlier.len() as int] == more[k]);
    }
}

/// Adding what a list holds already leaves it as it is.
proof fn lemma_nothing_new(list: Seq<Seq<char>>, more: Seq<Seq<char>>)
    requires
        forall|k: int| 0 <= k < more.len() ==> list.contains(#[trigger] more[k]),
    ensures
        with_new(list, more) == list,
    decreases more.len(),
{
    if more.len() > 0 {
        let rest = more.drop_last();
        assert forall|k: int| 0 <= k < rest.len() implies list.contains(#[trigger] rest[k]) by {
            assert(rest[k] == more[k]);
        }
        lemma_nothing_new(list, rest);
        assert(list.contains(more[more.len() - 1]));
    }
}

/// Whether all addresses of a list are those of directories.
pub open spec fn all_directories(urls: Seq<Seq<char>>) -> bool {
    forall|k: int| 0 <= k < urls.len() ==> directory_address(#[trigger] urls[k])
}

/// Adding libraries to a list without doubles keeps what it holds in front, leaves it without
/// doubles and with addresses of directories alone, and adding them again changes nothing.
pub proof fn law_adding_libraries(list: Seq<Seq<char>>, more: Seq<Seq<char>>)
    requires
        list.no_duplicates(),
        all_directories(list),
        all_directories(more),
    ensures
        list.is_prefix_of(with_new(list, more)),
        with_new(list, more).no_duplicates(),
        all_directories(with_new(list, more)),
        with_new(with_new(list, more), more) == with_new(list, more),
{
    law_adding_new(list, more);
    law_adding_twice_is_adding_once(list, more);
    let all = with_new(list, more);
    assert forall|k: int| 0 <= k < all.len() implies directory_address(#[trigger] all[k]) by {
        assert(all.to_set().contains(all[k]));
        if list.to_set().contains(all[k]) {
            let j = choose|j: int| 0 <= j < list.len() && list[j] == all[k];
            assert(directory_address(list[j]));
        } else {
            let j = choose|j: int| 0 <= j < more.len() && more[j] == all[k];
            assert(directory_address(more[j]));
        }
    }
}

/// Whether an address is that of a library at one of some paths, which is not empty.
pub open spec fn library_of(paths: Seq<Seq<char>>, url: Seq<char>) -> bool {
    exists|k: int|
        0 <= k < paths.len() && (#[trigger] paths[k]).len() > 0 && library_at(paths[k]) == Some(url)
}

/// Whether an address is one of a list that is there.
pub open spec fn is_there(urls: Seq<Seq<char>>, there: Seq<bool>, url: Seq<char>) -> bool {
    exists|k: int| 0 <= k < urls.len() && k < there.len() && there[k] && #[trigger] urls[k] == url
}

/// Whether one text comes before another in a list.
pub open spec fn in_order(list: Seq<Seq<char>>, first: Seq<char>, second: Seq<char>) -> bool {
    exists|a: int, b: int|
        0 <= a < b < list.len() && #[trigger] list[a] == first && #[trigger] list[b] == second
}

/// The addresses of libraries come from paths that are not empty.
proof fn lemma_library_of(paths: Seq<Seq<char>>, i: int)
    requires
        0 <= i < libraries_at(paths).len(),
    ensures
        library_of(paths, libraries_at(paths)[i]),
    decreases paths.len(),
{
    let rest = paths.drop_last();
    let url = libraries_at(paths)[i];
    if i < libraries_at(rest).len() {
        lemma_library_of(rest, i);
        let k = choose|k: int|
            0 <= k < rest.len() && (#[trigger] rest[k]).len() > 0 && library_at(rest[k]) == Some(
                url,
            );
        assert(paths[k] == rest[k]);
    } else {
        assert(paths[paths.len() - 1] == paths.last());
    }
}

/// What is kept of libraries is there.
proof fn lemma_is_there(urls: Seq<Seq<char>>, there: Seq<bool>, i: int)
    requires
        0 <= i < existing(urls, there).len(),
    ensures
        is_there(urls, there, existing(urls, there)[i]),
    decreases urls.len(),
{
    let rest = urls.drop_last();
    let url = existing(urls, there)[i];
    if i < existing(rest, there).len() {
        lemma_is_there(rest, there, i);
        let k = choose|k: int|
            0 <= k < rest.len() && k < there.len() && there[k] && #[trigger] rest[k] == url;
        assert(urls[k] == url);
    } else {
        assert(urls[urls.len() - 1] == url);
    }
}

/// What was added to a list comes from the other, in its order.
proof fn lemma_added_in_order(list: Seq<Seq<char>>, more: Seq<Seq<char>>)
    ensures
        list.len() <= with_new(list, more).len(),
        forall|i: int|
            list.len() <= i < with_new(list, more).len() ==> more.contains(
                #[trigger] with_new(list, more)[i],
            ),
        forall|i: int, j: int|
            list.len() <= i < j < with_new(list, more).len() ==> in_order(
                more,
                #[trigger] with_new(list, more)[i],
                #[trigger] with_new(list, more)[j],
            ),
    decreases more.len(),
{
    if more.len() > 0 {
        let rest = more.drop_last();
        lemma_added_in_order(list, rest);
        let earlier = with_new(list, rest);
        let all = with_new(list, more);
        assert forall|i: int| list.len() <= i < all.len() implies more.contains(
            #[trigger] all[i],
        ) by {
            if i < earlier.len() {
                assert(rest.contains(earlier[i]));
                let a = choose|a: int| 0 <= a < rest.len() && rest[a] == earlier[i];
                assert(more[a] == all[i]);
            } else {
                assert(more[more.len() - 1] == all[i]);
            }
        }
        assert forall|i: int, j: int| list.len() <= i < j < all.len() implies in_order(
            more,
            #[trigger] all[i],
            #[trigger] all[j],
        ) by {
            if j < earlier.len() {
                assert(in_order(rest, earlier[i], earlier[j]));
                let (a, b) = choose|a: int, b: int|
                    0 <= a < b < rest.len() && #[trigger] rest[a] == earlier[i]
                        && #[trigger] rest[b] == earlier[j];
                assert(more[a] == all[i] && more[b] == all[j]);
            } else {
                assert(rest.contains(earlier[i]));
                let a = choose|a: int| 0 <= a < rest.len() && rest[a] == earlier[i];
                assert(more[a] == all[i] && more[more.len() - 1] == all[j]);
            }
        }
    }
}

/// Adding the libraries at some paths, given which are there, to a list without doubles keeps what
/// it holds in front and leaves it without doubles and with addresses of directories alone. What
/// is added comes from paths that are not empty, in their order, and is there. As long as the
/// paths stand for the same and the same libraries are there, adding them again changes nothing.
pub proof fn law_extending_libraries(
    list: Seq<Seq<char>>,
    paths: Seq<Seq<char>>,
    there: Seq<bool>,
)
    requires
        list.no_duplicates(),
        all_directories(list),
        all_directories(libraries_at(paths)),
    ensures
        ({
            let found = existing(libraries_at(paths), there);
            let all = with_new(list, found);
            &&& list.is_prefix_of(all)
            &&& all.no_duplicates()
            &&& all_directories(all)
            &&& forall|i: int|
                list.len() <= i < all.len() ==> library_of(paths, #[trigger] all[i]) && is_there(
                    libraries_at(paths),
                    there,
                    all[i],
                )
            &&& forall|i: int, j: int|
                list.len() <= i < j < all.len() ==> in_order(
                    found,
                    #[trigger] all[i],
                    #[trigger] all[j],
                )
            &&& with_new(all, found) == all
        }),
{
    let urls = libraries_at(paths);
    let found = existing(urls, there);
    let all = with_new(list, found);
    assert forall|a: int| 0 <= a < found.len() implies directory_address(#[trigger] found[a]) by {
        lemma_is_there(urls, there, a);
        let k = choose|k: int|
            0 <= k < urls.len() && k < there.len() && there[k] && #[trigger] urls[k] == found[a];
        assert(directory_address(urls[k]));
    }
    law_adding_libraries(list, found);
    lemma_added_in_order(list, found);
    assert forall|i: int| list.len() <= i < all.len() implies library_of(paths, #[trigger] all[i])
        && is_there(urls, there, all[i]) by {
        assert(found.contains(all[i]));
        let a = choose|a: int| 0 <= a < found.len() && found[a] == all[i];
        lemma_is_there(urls, there, a);
        let k = choose|k: int|
            0 <= k < urls.len() && k < there.len() && there[k] && #[trigger] urls[k] == found[a];
        lemma_library_of(paths, k);
    }
}

/// The operating systems that keep libraries in different places.
#[derive(Clone, Copy, Debug, PartialEq, Eq, Structural)]
pub enum Platform {
    Windows,
    MacOs,
    Other,
}

/// Where the installation keeps its libraries.
pub fn installation_library_location(platform: Platform) -> (path: String)
    ensures
        path@ == (match platform {
            Platform::Windows => "C:\\Program Files\\OpenSCAD\\libraries\\"@,
            Platform::MacOs => "/Applications/OpenSCAD.app/Contents/Resources/libraries/"@,
            Platform::Other => "/usr/share/openscad/libraries/"@,
        }),
{
    match platform {
        Platform::Windows => "C:\\Program Files\\OpenSCAD\\libraries\\".to_owned(),
        Platform::MacOs => "/Applications/OpenSCAD.app/Contents/Resources/libraries/".to_owned(),
        Platform::Other => "/usr/share/openscad/libraries/".to_owned(),
    }
}

/// A place of libraries below one of a user's own directories.
#[derive(Debug)]
pub struct UserLibrary {
    /// Whether the directory is that of the user's documents, and not the home directory.
    pub in_documents: bool,
    pub path: String,
}

/// Where a user keeps libraries.
pub fn built_in_library_location(platform: Platform) -> (library: UserLibrary)
    ensures
        library.in_documents == (platform != Platform::Other),
        library.path@ == (match platform {
            Platform::Windows => "OpenSCAD\\libraries\\"@,
            Platform::MacOs => "OpenSCAD/libraries/"@,
            Platform::Other => ".local/share/OpenSCAD/libraries/"@,
        }),
{
    match platform {
        Platform::Windows => UserLibrary {
            in_documents: true,
            path: "OpenSCAD\\libraries\\".to_owned(),
        },
        Platform::MacOs => UserLibrary {
            in_documents: true,
            path: "OpenSCAD/libraries/".to_owned(),
        },
        Platform::Other => UserLibrary {
            in_documents: false,
            path: ".local/share/OpenSCAD/libraries/".to_owned(),
        },
    }
}

/// All places that libraries are looked for in: those that the user set, the user's own, and that
/// of the installation.
pub fn library_candidates(user: Vec<String>, own: Option<String>, platform: Platform) -> (paths: Vec<
    String,
>)
    ensures
        texts(paths@).len() == user@.len() + (if own is Some {
            2nat
        } else {
            1
        }),
        texts(paths@).take(user@.len() as int) == texts(user@),
        own is Some ==> texts(paths@)[user@.len() as int] == own->0@,
        texts(paths@).last() == (match platform {
            Platform::Windows => "C:\\Program Files\\OpenSCAD\\libraries\\"@,
            Platform::MacOs => "/Applications/OpenSCAD.app/Contents/Resources/libraries/"@,
            Platform::Other => "/usr/share/openscad/libraries/"@,
        }),
{
    let mut paths = user;
    match own {
        Some(own) => {
            paths.push(own);
        },
        None => {},
    }
    paths.push(installation_library_location(platform));
    assert(texts(paths@).take(user@.len() as int) =~= texts(user@));
    paths
}

/// The address of the document of what the language itself knows.
pub open spec fn builtin_url_of(path: Seq<char>) -> Option<Seq<char>> {
    parsed_url("file://"@ + path)
}

/// The address of the document of what the language itself knows.
pub fn builtin_url(path: &str) -> (url: Option<String>)
    ensures
        text_of(url) == builtin_url_of(path@),
{
    let mut text = "file://".to_owned();
    text.append(path);
    parse_url(text.as_str())
}

} // verus!
