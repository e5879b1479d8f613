use vstd::prelude::*;
use vstd::string::*;

use crate::addresses::{
    address_segments, asked, asked_address, byte_views, cut_query, directory_url, drive_name,
    drive_path, drive_segments, fits_address, fits_directory, forward_slashed, parsed_url,
    question_of, rooted_path, same_capital, segments, split_address, textless, url_to_path,
    without_query, Question,
};
use crate::parse_code::texts;
use crate::syntax::text_of;
use crate::text::same_text;

verus! {

/// Where a file or a directory is: its path, or its address where its path is not a text.
#[derive(Debug, PartialEq, Eq)]
pub struct Place {
    pub text: String,
    pub is_path: bool,
}

pub struct PlaceView {
    pub text: Seq<char>,
    pub is_path: bool,
}

impl View for Place {
    type V = PlaceView;

    open spec fn view(&self) -> PlaceView {
        PlaceView { text: self.text@, is_path: self.is_path }
    }
}

/// What a place that may not be there stands for.
pub open spec fn place_of(place: Option<Place>) -> Option<PlaceView> {
    match place {
        Some(place) => Some(place@),
        None => None,
    }
}

/// Whether a place, if there is one, can be that of an address. Where the path is not a text, the
/// place is the address that was asked.
pub open spec fn fits_place(url: Seq<char>, place: Option<PlaceView>) -> bool {
    match place {
        None => fits_address(url, None),
        Some(place) => if place.is_path {
            fits_address(url, Some(place.text))
        } else {
            &&& asked(url) is Some
            &&& textless(asked(url)->0)
            &&& place.text == asked_address(parsed_url(url)->0)
        },
    }
}

/// Where the file at an address is, if it has a path. A drive alone is asked with a slash behind
/// it, and a server alone has no path.
fn place_at(url: &str) -> (place: Option<Place>)
    ensures
        fits_place(url@, place_of(place)),
{
    let question: Question = question_of(url)?;
    match url_to_path(question.text.as_str())? {
        Some(text) => Some(Place { text, is_path: true }),
        None => Some(Place { text: question.address, is_path: false }),
    }
}

/// A part of the place of a root.
#[derive(Debug)]
pub enum Part {
    /// What stands in front of the root, such as a drive.
    Prefix(String),
    /// The root.
    Root,
    /// A component.
    Name(String),
    /// A component that may not be a text.
    Bytes(Vec<u8>),
}

/// The model of a [`Part`].
#[verifier::ext_equal]
pub enum PartView {
    Prefix(Seq<char>),
    Root,
    Name(Seq<char>),
    Bytes(Seq<u8>),
}

impl View for Part {
    type V = PartView;

    open spec fn view(&self) -> PartView {
        match self {
            Part::Prefix(text) => PartView::Prefix(text@),
            Part::Root => PartView::Root,
            Part::Name(text) => PartView::Name(text@),
            Part::Bytes(bytes) => PartView::Bytes(bytes@),
        }
    }
}

/// Components as parts.
pub open spec fn name_parts(list: Seq<Seq<char>>) -> Seq<PartView> {
    list.map_values(|text: Seq<char>| PartView::Name(text))
}

/// Components that may not be texts as parts.
pub open spec fn byte_parts(list: Seq<Seq<u8>>) -> Seq<PartView> {
    list.map_values(|bytes: Seq<u8>| PartView::Bytes(bytes))
}

/// What a list of parts stands for.
pub open spec fn part_views(parts: Seq<Part>) -> Seq<PartView> {
    parts.map_values(|part: Part| part@)
}

/// Whether a path starts with a slash, and nothing in front of it is a server.
pub open spec fn slash_rooted(path: Seq<char>) -> bool {
    &&& path.len() > 0 && path[0] == '/'
    &&& !(path.len() >= 2 && (path[1] == '/' || path[1] == '\\'))
}

/// Whether a list can be that of the parts of a path: the root, and the components that slashes
/// part. Backslashes part components too, or they do not. A path that starts with a drive is read
/// in one of two ways: the drive is a component as any other, or it is the prefix, the root comes
/// behind it, and backslashes part components.
pub open spec fn fits_parts(path: Seq<char>, parts: Seq<PartView>) -> bool {
    &&& slash_rooted(path) ==> {
        ||| parts == seq![PartView::Root] + name_parts(segments(path))
        ||| parts == seq![PartView::Root] + name_parts(segments(forward_slashed(path)))
    }
    &&& drive_path(path) ==> {
        ||| parts == name_parts(segments(path))
        ||| parts == seq![PartView::Prefix(path.take(2)), PartView::Root] + name_parts(
            drive_segments(path),
        )
    }
}

/// The parts of a path, with `std::path::Path::components`.
///
/// Believed of it: slashes at the end, doubled ones and lone dots do not count, a slash at the
/// start is the root, and a drive in front of a path is either a component or its prefix. Whether
/// backslashes part components, and the parts of other paths, differ between operating systems.
#[verifier::external_body]
fn path_parts(path: &str) -> (parts: Vec<Part>)
    ensures
        fits_parts(path@, part_views(parts@)),
{
    let parts = std::path::Path::new(path).components();
    parts.map(|part| match part {
        std::path::Component::Prefix(prefix) => {
            Part::Prefix(prefix.as_os_str().to_string_lossy().into_owned())
        },
        std::path::Component::RootDir => Part::Root,
        part => Part::Name(part.as_os_str().to_string_lossy().into_owned()),
    }).collect()
}

/// A root of a workspace: where it is, and the parts by which it is compared.
#[derive(Debug)]
pub struct Root {
    place: Place,
    parts: Vec<Part>,
}

pub struct RootView {
    pub place: PlaceView,
    pub parts: Seq<PartView>,
}

impl View for Root {
    type V = RootView;

    closed spec fn view(&self) -> RootView {
        RootView { place: self.place@, parts: part_views(self.parts@) }
    }
}

/// What a list of roots stands for.
pub open spec fn root_views(roots: Seq<Root>) -> Seq<RootView> {
    roots.map_values(|root: Root| root@)
}

/// What a root that may not be there stands for.
pub open spec fn root_of(root: Option<Root>) -> Option<RootView> {
    match root {
        Some(root) => Some(root@),
        None => None,
    }
}

/// What a list of roots that may not be there stands for.
pub open spec fn option_roots(list: Seq<Option<Root>>) -> Seq<Option<RootView>> {
    list.map_values(|root: Option<Root>| root_of(root))
}

/// What a root that may not have been asked for and may not exist stands for.
pub open spec fn optional_root(root: Option<Option<Root>>) -> Option<Option<RootView>> {
    match root {
        Some(root) => Some(root_of(root)),
        None => None,
    }
}

/// Whether the components of a root are those of its place.
pub open spec fn root_fits(root: RootView) -> bool {
    if root.place.is_path {
        fits_parts(root.place.text, root.parts)
    } else {
        root.parts == byte_parts(address_segments(root.place.text))
    }
}

impl Root {
    /// The root at a path.
    pub fn at_path(path: String) -> (root: Root)
        ensures
            root@.place == (PlaceView { text: path@, is_path: true }),
            root_fits(root@),
    {
        let parts = path_parts(path.as_str());
        Root { place: Place { text: path, is_path: true }, parts }
    }

    /// The root at a place.
    pub fn at_place(place: Place) -> (root: Root)
        ensures
            root@.place == place@,
            root_fits(root@),
    {
        if place.is_path {
            Root::at_path(place.text)
        } else {
            let parts = unread_parts(split_address(place.text.as_str()));
            Root { place, parts }
        }
    }

    /// Where the root is.
    pub fn place(&self) -> (place: &Place)
        ensures
            place@ == self@.place,
    {
        &self.place
    }

    /// A copy of the root.
    pub fn copy(&self) -> (copy: Root)
        ensures
            copy@ == self@,
    {
        let place = Place { text: self.place.text.clone(), is_path: self.place.is_path };
        Root { place, parts: clone_parts(&self.parts) }
    }

    /// Whether another root is the same.
    pub fn same(&self, other: &Root) -> (r: bool)
        ensures
            r == same_root(self@, other@),
    {
        self.place.is_path == other.place.is_path && (same_text(
            self.place.text.as_str(),
            other.place.text.as_str(),
        ) || have_same_parts(&self.parts, &other.parts))
    }
}

/// Whether two letters are the same, as capitals or not.
pub open spec fn same_letter(a: char, b: char) -> bool {
    same_capital(a, b) || same_capital(b, a)
}

/// Whether two parts are the same. Of drives in front of the root, capitals do not matter.
pub open spec fn same_part(a: PartView, b: PartView) -> bool {
    a == b || match (a, b) {
        (PartView::Prefix(p), PartView::Prefix(q)) => p.len() == 2 && q.len() == 2 && drive_name(p)
            && drive_name(q) && same_letter(p[0], q[0]),
        _ => false,
    }
}

/// Whether two lists of parts are the same.
pub open spec fn same_parts(a: Seq<PartView>, b: Seq<PartView>) -> bool {
    a.len() == b.len() && forall|k: int| 0 <= k < a.len() ==> same_part(#[trigger] a[k], b[k])
}

/// Whether two roots are the same: their parts are, or the texts of their places.
pub open spec fn same_root(a: RootView, b: RootView) -> bool {
    a.place.is_path == b.place.is_path && (a.place.text == b.place.text || same_parts(
        a.parts,
        b.parts,
    ))
}

/// Two roots at paths that start with a slash, and in which no backslash is, are the same exactly
/// if the paths have the same components.
pub proof fn law_rooted_paths_are_compared_by_components(a: RootView, b: RootView)
    requires
        root_fits(a),
        root_fits(b),
        a.place.is_path && rooted_path(a.place.text),
        b.place.is_path && rooted_path(b.place.text),
    ensures
        same_root(a, b) == (segments(a.place.text) == segments(b.place.text)),
{
    let (p, q) = (a.place.text, b.place.text);
    lemma_no_backslash(p);
    lemma_no_backslash(q);
    let root = seq![PartView::Root];
    assert(a.parts == root + name_parts(segments(p)));
    assert(b.parts == root + name_parts(segments(q)));
    if same_parts(a.parts, b.parts) {
        lemma_same_names(root, root, segments(p), segments(q));
    }
}

/// Two roots at paths that start with a drive are the same only if the paths have the same
/// components: those that slashes part, or those that backslashes part too, behind the same drive.
/// The converse holds for paths that are read in the same way.
pub proof fn law_drives_are_compared_by_components(a: RootView, b: RootView)
    requires
        root_fits(a),
        root_fits(b),
        a.place.is_path && drive_path(a.place.text),
        b.place.is_path && drive_path(b.place.text),
    ensures
        ({
            let (p, q) = (a.place.text, b.place.text);
            let same_drive = same_letter(p[0], q[0]) && drive_segments(p) == drive_segments(q);
            &&& same_root(a, b) ==> segments(p) == segments(q) || same_drive
            &&& segments(p) == segments(q) && a.parts == name_parts(segments(p)) && b.parts
                == name_parts(segments(q)) ==> same_root(a, b)
            &&& same_drive && a.parts != name_parts(segments(p)) && b.parts != name_parts(
                segments(q),
            ) ==> same_root(a, b)
        }),
{
    let (p, q) = (a.place.text, b.place.text);
    let first = seq![PartView::Prefix(p.take(2)), PartView::Root];
    let second = seq![PartView::Prefix(q.take(2)), PartView::Root];
    let none = Seq::<PartView>::empty();
    assert(none + name_parts(segments(p)) =~= name_parts(segments(p)));
    assert(none + name_parts(segments(q)) =~= name_parts(segments(q)));
    assert(p.take(2)[0] == p[0] && q.take(2)[0] == q[0]);
    let plain_a = a.parts == name_parts(segments(p));
    let plain_b = b.parts == name_parts(segments(q));
    if same_parts(a.parts, b.parts) && p != q {
        if plain_a && plain_b {
            lemma_same_names(none, none, segments(p), segments(q));
        } else if plain_a {
            assert(b.parts[0] == second[0]);
            assert(same_part(a.parts[0], b.parts[0]));
        } else if plain_b {
            assert(a.parts[0] == first[0]);
            assert(same_part(a.parts[0], b.parts[0]));
        } else {
            assert(a.parts[0] == first[0] && b.parts[0] == second[0]);
            assert(same_part(a.parts[0], b.parts[0]));
            lemma_same_names(first, second, drive_segments(p), drive_segments(q));
        }
    }
    if !plain_a && !plain_b && same_letter(p[0], q[0]) && drive_segments(p) == drive_segments(q) {
        assert forall|k: int| 0 <= k < a.parts.len() implies same_part(
            #[trigger] a.parts[k],
            b.parts[k],
        ) by {
            if k == 0 {
                assert(a.parts[0] == first[0] && b.parts[0] == second[0]);
            } else if k == 1 {
                assert(a.parts[1] == first[1] && b.parts[1] == second[1]);
            } else {
                assert(a.parts[k] == name_parts(drive_segments(p))[k - 2]);
                assert(b.parts[k] == name_parts(drive_segments(q))[k - 2]);
            }
        }
    }
}

/// Two roots whose paths are not texts are the same exactly if their addresses have the same
/// components, however these are escaped.
pub proof fn law_other_roots_are_compared_without_escapes(a: RootView, b: RootView)
    requires
        root_fits(a),
        root_fits(b),
        !a.place.is_path,
        !b.place.is_path,
    ensures
        same_root(a, b) == (address_segments(a.place.text) == address_segments(b.place.text)),
{
    let (p, q) = (address_segments(a.place.text), address_segments(b.place.text));
    if same_parts(a.parts, b.parts) {
        assert(p.len() == a.parts.len() && q.len() == b.parts.len());
        assert forall|k: int| 0 <= k < p.len() implies p[k] == q[k] by {
            assert(a.parts[k] == PartView::Bytes(p[k]) && b.parts[k] == PartView::Bytes(q[k]));
            assert(same_part(a.parts[k], b.parts[k]));
        }
        assert(p =~= q);
    }
}

/// A path without backslashes is the same with slashes in their place.
proof fn lemma_no_backslash(path: Seq<char>)
    requires
        !path.contains('\\'),
    ensures
        forward_slashed(path) == path,
{
    assert forall|k: int| 0 <= k < path.len() implies forward_slashed(path)[k] == path[k] by {
        assert(path.contains(path[k]));
    }
    assert(forward_slashed(path) =~= path);
}

/// Lists of parts that are the same end in the same components.
proof fn lemma_same_names(
    a: Seq<PartView>,
    b: Seq<PartView>,
    p: Seq<Seq<char>>,
    q: Seq<Seq<char>>,
)
    requires
        a.len() == b.len(),
        same_parts(a + name_parts(p), b + name_parts(q)),
    ensures
        p == q,
{
    let (x, y) = (a + name_parts(p), b + name_parts(q));
    assert(x.len() == a.len() + p.len() && y.len() == b.len() + q.len());
    assert forall|k: int| 0 <= k < p.len() implies p[k] == q[k] by {
        assert(x[a.len() + k] == PartView::Name(p[k]));
        assert(y[b.len() + k] == PartView::Name(q[k]));
        assert(same_part(x[a.len() + k], y[a.len() + k]));
    }
    assert(p =~= q);
}

/// Whether a text is the name of a drive, without escapes.
fn is_drive(text: &str) -> (r: bool)
    ensures
        r == (text@.len() == 2 && drive_name(text@)),
{
    if text.unicode_len() != 2 {
        return false;
    }
    let letter: char = text.get_char(0);
    text.get_char(1) == ':' && (('a' <= letter && letter <= 'z') || ('A' <= letter && letter
        <= 'Z'))
}

/// Whether two letters are the same, or the second is the first as a capital.
fn is_same_capital(a: char, b: char) -> (r: bool)
    ensures
        r == same_capital(a, b),
{
    a == b || ('A' <= b && b <= 'Z' && a as u32 == b as u32 + 32)
}

/// Whether two lists of bytes are the same.
fn same_bytes(a: &Vec<u8>, b: &Vec<u8>) -> (r: bool)
    ensures
        r == (a@ == b@),
{
    if a.len() != b.len() {
        return false;
    }
    let mut k: usize = 0;
    while k < a.len()
        invariant
            k <= a@.len(),
            a@.len() == b@.len(),
            forall|j: int| 0 <= j < k ==> a@[j] == b@[j],
        decreases a@.len() - k,
    {
        if a[k] != b[k] {
            return false;
        }
        k += 1;
    }
    assert(a@ =~= b@);
    true
}

/// Whether two parts are the same.
fn is_same_part(a: &Part, b: &Part) -> (r: bool)
    ensures
        r == same_part(a@, b@),
{
    match (a, b) {
        (Part::Prefix(s), Part::Prefix(t)) => {
            let (s, t) = (s.as_str(), t.as_str());
            if same_text(s, t) {
                return true;
            }
            if !is_drive(s) || !is_drive(t) {
                return false;
            }
            let (x, y) = (s.get_char(0), t.get_char(0));
            is_same_capital(x, y) || is_same_capital(y, x)
        },
        (Part::Root, Part::Root) => true,
        (Part::Name(s), Part::Name(t)) => same_text(s.as_str(), t.as_str()),
        (Part::Bytes(s), Part::Bytes(t)) => same_bytes(s, t),
        _ => false,
    }
}

/// Whether two lists of parts are the same.
fn have_same_parts(a: &Vec<Part>, b: &Vec<Part>) -> (r: bool)
    ensures
        r == same_parts(part_views(a@), part_views(b@)),
{
    let ghost (p, q) = (part_views(a@), part_views(b@));
    if a.len() != b.len() {
        return false;
    }
    let mut k: usize = 0;
    while k < a.len()
        invariant
            k <= a@.len(),
            a@.len() == b@.len(),
            p == part_views(a@),
            q == part_views(b@),
            forall|j: int| 0 <= j < k ==> same_part(#[trigger] p[j], q[j]),
        decreases a@.len() - k,
    {
        let same: bool = is_same_part(&a[k], &b[k]);
        assert(same == same_part(p[k as int], q[k as int]));
        if !same {
            return false;
        }
        k += 1;
    }
    true
}

/// Components that may not be texts as parts.
fn unread_parts(list: Vec<Vec<u8>>) -> (parts: Vec<Part>)
    ensures
        part_views(parts@) == byte_parts(byte_views(list@)),
{
    let ghost all = byte_views(list@);
    let mut parts: Vec<Part> = Vec::new();
    let mut k: usize = 0;
    while k < list.len()
        invariant
            k <= list@.len(),
            all == byte_views(list@),
            parts@.len() == k,
            forall|j: int| 0 <= j < k ==> (#[trigger] parts@[j])@ == PartView::Bytes(all[j]),
        decreases list@.len() - k,
    {
        parts.push(Part::Bytes(clone_bytes(&list[k])));
        k += 1;
    }
    assert(part_views(parts@) =~= byte_parts(all));
    parts
}

/// A copy of a list of bytes.
fn clone_bytes(bytes: &Vec<u8>) -> (copy: Vec<u8>)
    ensures
        copy@ == bytes@,
{
    let mut copy: Vec<u8> = Vec::new();
    let mut k: usize = 0;
    while k < bytes.len()
        invariant
            k <= bytes@.len(),
            copy@ == bytes@.take(k as int),
        decreases bytes@.len() - k,
    {
        copy.push(bytes[k]);
        k += 1;
        assert(bytes@.take(k as int) =~= bytes@.take(k - 1).push(bytes@[k - 1]));
    }
    assert(copy@ =~= bytes@);
    copy
}

/// A copy of a list of parts.
fn clone_parts(list: &Vec<Part>) -> (copy: Vec<Part>)
    ensures
        part_views(copy@) == part_views(list@),
{
    let mut copy: Vec<Part> = Vec::new();
    let mut k: usize = 0;
    while k < list.len()
        invariant
            k <= list@.len(),
            copy@.len() == k,
            forall|j: int| 0 <= j < k ==> (#[trigger] copy@[j])@ == list@[j]@,
        decreases list@.len() - k,
    {
        let part = match &list[k] {
            Part::Prefix(text) => Part::Prefix(text.clone()),
            Part::Root => Part::Root,
            Part::Name(text) => Part::Name(text.clone()),
            Part::Bytes(bytes) => Part::Bytes(clone_bytes(bytes)),
        };
        copy.push(part);
        k += 1;
    }
    assert(part_views(copy@) =~= part_views(list@));
    copy
}

/// Whether a list holds a root.
pub open spec fn holds_root(list: Seq<RootView>, root: RootView) -> bool {
    exists|k: int| 0 <= k < list.len() && same_root(#[trigger] list[k], root)
}

/// A list of roots with those of another added that it does not hold.
pub open spec fn with_roots(list: Seq<RootView>, more: Seq<RootView>) -> Seq<RootView>
    decreases more.len(),
{
    if more.len() == 0 {
        list
    } else {
        let earlier = with_roots(list, more.drop_last());
        if holds_root(earlier, more.last()) {
            earlier
        } else {
            earlier.push(more.last())
        }
    }
}

/// The roots of a workspace, given what a client named: a root address if there was one, a root
/// path else, and the folders. What has no path is passed over, and none is taken twice.
pub open spec fn roots_of(
    root: Option<Option<RootView>>,
    root_path: Option<RootView>,
    folders: Seq<Option<RootView>>,
) -> Seq<RootView> {
    let first = match (root, root_path) {
        (Some(Some(root)), _) => seq![root],
        (Some(None), _) => Seq::empty(),
        (None, Some(root)) => seq![root],
        (None, None) => Seq::empty(),
    };
    with_roots(first, present(folders))
}

/// No two roots of a workspace are the same, and each that was named has one that is.
pub proof fn law_roots_are_distinct(
    root: Option<Option<RootView>>,
    root_path: Option<RootView>,
    folders: Seq<Option<RootView>>,
)
    ensures
        ({
            let roots = roots_of(root, root_path, folders);
            &&& forall|i: int, j: int|
                0 <= i < j < roots.len() ==> !same_root(#[trigger] roots[i], #[trigger] roots[j])
            &&& root matches Some(Some(root)) ==> roots.len() > 0 && roots[0] == root
            &&& root is None && root_path is Some ==> roots.len() > 0 && roots[0] == root_path->0
            &&& forall|k: int|
                0 <= k < folders.len() && (#[trigger] folders[k]) is Some ==> holds_root(
                    roots,
                    folders[k]->0,
                )
        }),
{
    let first = match (root, root_path) {
        (Some(Some(root)), _) => seq![root],
        (Some(None), _) => Seq::empty(),
        (None, Some(root)) => seq![root],
        (None, None) => Seq::empty(),
    };
    let more = present(folders);
    lemma_with_roots(first, more);
    let roots = roots_of(root, root_path, folders);
    assert(roots == with_roots(first, more));
    if first.len() > 0 {
        assert(roots[0] == first[0]);
    }
    assert forall|k: int| 0 <= k < folders.len() && (#[trigger] folders[k]) is Some implies holds_root(
        roots_of(root, root_path, folders),
        folders[k]->0,
    ) by {
        lemma_present(folders, k);
        let j = choose|j: int| 0 <= j < more.len() && more[j] == folders[k]->0;
        assert(holds_root(with_roots(first, more), more[j]));
    }
}

/// Adding roots to a list without doubles leaves it without doubles, and it holds them all.
proof fn lemma_with_roots(list: Seq<RootView>, more: Seq<RootView>)
    requires
        list.len() <= 1,
    ensures
        list.is_prefix_of(with_roots(list, more)),
        forall|i: int, j: int|
            0 <= i < j < with_roots(list, more).len() ==> !same_root(
                #[trigger] with_roots(list, more)[i],
                #[trigger] with_roots(list, more)[j],
            ),
        forall|k: int|
            0 <= k < more.len() ==> holds_root(with_roots(list, more), #[trigger] more[k]),
    decreases more.len(),
{
    if more.len() > 0 {
        let rest = more.drop_last();
        let earlier = with_roots(list, rest);
        let all = with_roots(list, more);
        lemma_with_roots(list, rest);
        assert(earlier.is_prefix_of(all));
        assert(list.is_prefix_of(all));
        assert forall|k: int| 0 <= k < more.len() implies holds_root(all, #[trigger] more[k]) by {
            if k < rest.len() {
                assert(holds_root(earlier, rest[k]));
                let j = choose|j: int|
                    0 <= j < earlier.len() && same_root(#[trigger] earlier[j], rest[k]);
                assert(same_root(all[j], more[k]));
            } else if !holds_root(earlier, more[k]) {
                assert(same_root(all[earlier.len() as int], more[k]));
            }
        }
    }
}

/// What is there in a list is among what is there.
proof fn lemma_present<A>(list: Seq<Option<A>>, k: int)
    requires
        0 <= k < list.len(),
        list[k] is Some,
    ensures
        exists|j: int| 0 <= j < present(list).len() && present(list)[j] == list[k]->0,
    decreases list.len(),
{
    if k < list.len() - 1 {
        lemma_present(list.drop_last(), k);
        let before = present(list.drop_last());
        let j = choose|j: int| 0 <= j < before.len() && before[j] == list[k]->0;
        assert(present(list)[j] == list[k]->0);
    } else {
        assert(present(list)[present(list).len() - 1] == list[k]->0);
    }
}

/// What is there in a list.
pub open spec fn present<A>(list: Seq<Option<A>>) -> Seq<A>
    decreases list.len(),
{
    if list.len() == 0 {
        Seq::empty()
    } else {
        match list.last() {
            Some(item) => present(list.drop_last()).push(item),
            None => present(list.drop_last()),
        }
    }
}

/// The characters of a list of optional texts.
pub open spec fn option_texts(list: Seq<Option<String>>) -> Seq<Option<Seq<char>>> {
    list.map_values(|t: Option<String>| text_of(t))
}

/// The texts of a list that are there.
pub fn keep_present(list: Vec<Option<String>>) -> (kept: Vec<String>)
    ensures
        texts(kept@) == present(option_texts(list@)),
{
    let ghost all = option_texts(list@);
    let mut kept: Vec<String> = Vec::new();
    assert(all.take(0) =~= Seq::empty());
    assert(texts(kept@) =~= present(all.take(0)));
    let mut k: usize = 0;
    while k < list.len()
        invariant
            k <= list@.len(),
            all == option_texts(list@),
            texts(kept@) == present(all.take(k as int)),
        decreases list@.len() - k,
    {
        let ghost before = texts(kept@);
        proof {
            assert(all.take(k + 1).drop_last() =~= all.take(k as int));
            assert(all.take(k + 1).last() == text_of(list@[k as int]));
        }
        match &list[k] {
            Some(text) => {
                kept.push(text.clone());
                assert(texts(kept@) =~= before.push(text@));
            },
            None => {},
        }
        k += 1;
    }
    assert(all.take(list@.len() as int) =~= all);
    kept
}

/// Whether a list holds a root.
fn has_root(list: &Vec<Root>, root: &Root) -> (r: bool)
    ensures
        r == holds_root(root_views(list@), root@),
{
    let mut k: usize = 0;
    while k < list.len()
        invariant
            k <= list@.len(),
            forall|j: int| 0 <= j < k ==> !same_root(#[trigger] root_views(list@)[j], root@),
        decreases list@.len() - k,
    {
        if list[k].same(root) {
            assert(same_root(root_views(list@)[k as int], root@));
            return true;
        }
        k += 1;
    }
    false
}

/// The roots of a workspace, given what a client named.
pub fn collect_roots(
    root: Option<Option<Root>>,
    root_path: Option<Root>,
    folders: Vec<Option<Root>>,
) -> (roots: Vec<Root>)
    ensures
        root_views(roots@) == roots_of(
            optional_root(root),
            root_of(root_path),
            option_roots(folders@),
        ),
{
    let mut roots: Vec<Root> = Vec::new();
    let first: Option<Root> = match root {
        Some(root) => root,
        None => root_path,
    };
    match first {
        Some(root) => {
            let ghost view = root@;
            roots.push(root);
            assert(root_views(roots@) =~= seq![view]);
        },
        None => {
            assert(root_views(roots@) =~= Seq::empty());
        },
    }
    let ghost start = root_views(roots@);
    let ghost all = option_roots(folders@);
    assert(all.take(0) =~= Seq::empty());
    let mut k: usize = 0;
    while k < folders.len()
        invariant
            k <= folders@.len(),
            all == option_roots(folders@),
            root_views(roots@) == with_roots(start, present(all.take(k as int))),
        decreases folders@.len() - k,
    {
        let ghost before = root_views(roots@);
        let ghost seen = present(all.take(k as int));
        proof {
            assert(all.take(k + 1).drop_last() =~= all.take(k as int));
            assert(all.take(k + 1).last() == root_of(folders@[k as int]));
        }
        match &folders[k] {
            Some(root) => {
                assert(seen.push(root@).drop_last() =~= seen);
                assert(seen.push(root@).last() == root@);
                if !has_root(&roots, root) {
                    roots.push(root.copy());
                    assert(root_views(roots@) =~= before.push(root@));
                }
            },
            None => {},
        }
        k += 1;
    }
    assert(all.take(folders@.len() as int) =~= all);
    roots
}

/// Whether a root, if there is one, can be that of an address.
pub open spec fn fits_root(url: Seq<char>, root: Option<RootView>) -> bool {
    match root {
        Some(root) => fits_place(url, Some(root.place)) && root_fits(root),
        None => fits_place(url, None),
    }
}

/// The root at an address, if it has a path.
fn root_at(url: &str) -> (root: Option<Root>)
    ensures
        fits_root(url@, root_of(root)),
{
    match place_at(url) {
        Some(place) => Some(Root::at_place(place)),
        None => None,
    }
}

/// The roots of a workspace that a client named by address, by path or as folders. Which addresses
/// have paths is up to the operating system; whatever they are, the roots are made of them as
/// [`roots_of`] says.
pub fn extract_workspace_roots(
    root_uri: Option<String>,
    root_path: Option<String>,
    folders: Vec<String>,
) -> (roots: Vec<Root>)
    ensures
        exists|
            root: Option<Option<RootView>>,
            path: Option<RootView>,
            places: Seq<Option<RootView>>,
        |
            {
                &&& root_views(roots@) == #[trigger] roots_of(root, path, places)
                &&& (root is Some) == (root_uri is Some)
                &&& root is Some ==> fits_root(root_uri->0@, root->0)
                &&& (path is Some) == (root_path is Some)
                &&& path is Some ==> root_fits(path->0) && path->0.place == (PlaceView {
                    text: root_path->0@,
                    is_path: true,
                })
                &&& places.len() == folders@.len()
                &&& forall|k: int|
                    0 <= k < places.len() ==> fits_root(folders@[k]@, #[trigger] places[k])
            },
{
    let root: Option<Option<Root>> = match &root_uri {
        Some(uri) => Some(root_at(uri.as_str())),
        None => None,
    };
    let path: Option<Root> = match root_path {
        Some(path) => Some(Root::at_path(path)),
        None => None,
    };
    let mut places: Vec<Option<Root>> = Vec::new();
    let mut k: usize = 0;
    while k < folders.len()
        invariant
            k <= folders@.len(),
            places@.len() == k,
            forall|j: int|
                0 <= j < k ==> fits_root(folders@[j]@, root_of(#[trigger] places@[j])),
        decreases folders@.len() - k,
    {
        places.push(root_at(folders[k].as_str()));
        k += 1;
    }
    let ghost root_view = optional_root(root);
    let ghost path_view = root_of(path);
    let ghost place_views = option_roots(places@);
    proof {
        assert forall|k: int| 0 <= k < place_views.len() implies fits_root(
            folders@[k]@,
            #[trigger] place_views[k],
        ) by {
            assert(place_views[k] == root_of(places@[k]));
        }
    }
    let roots = collect_roots(root, path, places);
    assert(root_views(roots@) == roots_of(root_view, path_view, place_views));
    roots
}

/// The address of the directory at a root, where the root is known by its address.
pub open spec fn slashed(address: Seq<char>) -> Seq<char> {
    let head = without_query(address);
    if head.len() > 0 && head.last() == '/' {
        head
    } else {
        head.push('/')
    }
}

/// Whether an address, if there is one, can be that of the directory at a root.
pub open spec fn fits_base(root: RootView, base: Option<Seq<char>>) -> bool {
    if root.place.is_path {
        fits_directory(root.place.text, base)
    } else {
        base == Some(slashed(root.place.text))
    }
}

/// The address of the directory at a root, if it has one.
pub fn root_base(root: &Root) -> (base: Option<String>)
    ensures
        fits_base(root@, text_of(base)),
{
    if root.place.is_path {
        return directory_url(root.place.text.as_str());
    }
    let mut base: String = cut_query(root.place.text.as_str()).to_owned();
    let n: usize = base.as_str().unicode_len();
    if n == 0 || base.as_str().get_char(n - 1) != '/' {
        base.append("/");
        proof {
            reveal_strlit("/");
        }
        assert(base@ =~= slashed(root@.place.text));
    }
    Some(base)
}

} // verus!
