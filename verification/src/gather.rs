use vstd::hash_set::StringHashSet;
use vstd::prelude::*;
use vstd::string::*;

use crate::addresses::{join_url, joined_url};
use crate::environment::{EnvView, Environment, LinkView};
use crate::lists::lemma_push_to_set;
use crate::parse_code::{texts, DocView, ParsedCode};
use crate::store::CACHE_LIMIT;
use crate::syntax::{text_of, Tree};

verus! {

/// A text of a document: its address and its characters.
pub type Source = (Seq<char>, Seq<char>);

/// The paths that the `include`s and `use`s of a text write.
pub open spec fn paths_in(code: Seq<char>) -> Seq<Seq<char>> {
    let doc = DocView::fresh(code, Seq::empty());
    doc.link_paths(doc.tree.len())
}

/// The name of a file without the brackets and line ends around it.
pub open spec fn bare_path(path: Seq<char>) -> Seq<char> {
    without_end(without_start(path))
}

/// Whether a character is a bracket around a path, or a line end.
pub open spec fn around_path(c: char) -> bool {
    c == '<' || c == '>' || c == '\n'
}

/// A path without the brackets and line ends at its start.
pub open spec fn without_start(path: Seq<char>) -> Seq<char>
    decreases path.len(),
{
    if path.len() > 0 && around_path(path[0]) {
        without_start(path.drop_first())
    } else {
        path
    }
}

/// A path without the brackets and line ends at its end.
pub open spec fn without_end(path: Seq<char>) -> Seq<char>
    decreases path.len(),
{
    if path.len() > 0 && around_path(path.last()) {
        without_end(path.drop_last())
    } else {
        path
    }
}

/// The addresses that a path below some others may lead to, in order.
pub open spec fn below(bases: Seq<Seq<char>>, name: Seq<char>) -> Seq<Seq<char>>
    decreases bases.len(),
{
    if bases.len() == 0 {
        Seq::empty()
    } else {
        let earlier = below(bases.drop_last(), name);
        match joined_url(bases.last(), name) {
            Some(url) => earlier.push(url),
            None => earlier,
        }
    }
}

/// The addresses that a path in a document may lead to: beside the document first, then in the
/// libraries.
pub open spec fn link_candidates(
    url: Seq<char>,
    path: Seq<char>,
    libraries: Seq<Seq<char>>,
) -> Seq<Seq<char>> {
    below(seq![url] + libraries, bare_path(path))
}

/// What is to be looked up outside.
#[derive(Debug)]
pub enum Lookup {
    /// The text of a file.
    Read { url: String },
    /// The first of some addresses at which there is a file: a path in a document leads to it.
    Resolve { url: String, path: String, candidates: Vec<String> },
    /// Nothing more.
    Done,
}

/// Something that is still to be looked up.
enum Task {
    Read(String),
    Resolve(String, String),
}

/// The model of a task.
#[verifier::ext_equal]
pub enum TaskView {
    Read(Seq<char>),
    Resolve(Seq<char>, Seq<char>),
}

impl View for Task {
    type V = TaskView;

    closed spec fn view(&self) -> TaskView {
        match self {
            Task::Read(url) => TaskView::Read(url@),
            Task::Resolve(url, path) => TaskView::Resolve(url@, path@),
        }
    }
}

/// What is known of the files outside so far, and what is still to be looked up.
pub struct Gathering {
    env: Environment,
    tasks: Vec<Task>,
    held: StringHashSet,
    held_urls: Vec<String>,
    crowded: bool,
    libraries: Vec<String>,
    sources: Ghost<Seq<Source>>,
    wanted: Ghost<Set<Seq<char>>>,
}

/// The model of a [`Gathering`].
#[verifier::ext_equal]
pub struct GatheringView {
    pub env: EnvView,
    pub tasks: Seq<TaskView>,
    /// The documents that are held and need not be read, as long as none of them is dropped.
    pub held: Set<Seq<char>>,
    /// Whether the documents that are held are read all the same: so many others are asked for
    /// that they may be dropped.
    pub crowded: bool,
    pub libraries: Seq<Seq<char>>,
    /// The texts whose paths are followed.
    pub sources: Seq<Source>,
    /// The files that are asked for.
    pub wanted: Set<Seq<char>>,
}

impl View for Gathering {
    type V = GatheringView;

    closed spec fn view(&self) -> GatheringView {
        GatheringView {
            env: self.env@,
            tasks: self.tasks@.map_values(|t: Task| t@),
            held: self.held@,
            crowded: self.crowded,
            libraries: texts(self.libraries@),
            sources: self.sources@,
            wanted: self.wanted@,
        }
    }
}

impl GatheringView {
    /// Whether it is known, or will be looked up, what reading a file gives.
    pub open spec fn file_covered(self, url: Seq<char>) -> bool {
        self.env.files.contains_key(url) || self.tasks.contains(TaskView::Read(url))
    }

    /// Whether it is known, or will be looked up, where a path in a document leads.
    pub open spec fn link_covered(self, url: Seq<char>, path: Seq<char>) -> bool {
        self.env.link_from(url, path, 0) is Some || self.tasks.contains(
            TaskView::Resolve(url, path),
        )
    }

    /// Whether all paths of the texts, all files that links lead to and all files that are asked
    /// for are known or will be looked up, and the texts that were read are among the texts. So
    /// are the files of the documents that are held, if these may be dropped.
    pub open spec fn covered(self) -> bool {
        &&& forall|i: int, path: Seq<char>|
            0 <= i < self.sources.len() && paths_in(self.sources[i].1).contains(path)
                ==> #[trigger] self.link_covered(self.sources[i].0, path)
        &&& forall|k: int|
            0 <= k < self.env.links.len() && (#[trigger] self.env.links[k]).target is Some
                ==> self.held.contains(self.env.links[k].target->0) || self.file_covered(
                self.env.links[k].target->0,
            )
        &&& forall|url: Seq<char>| #[trigger] self.wanted.contains(url) ==> self.file_covered(url)
        &&& forall|i: int|
            0 <= i < self.sources.len() ==> Tree::parse((#[trigger] self.sources[i]).1).wf()
        &&& self.held.finite()
        &&& self.env.files.dom().finite()
        &&& forall|url: Seq<char>|
            self.crowded && #[trigger] self.held.contains(url) ==> self.file_covered(url)
        &&& forall|url: Seq<char>| #[trigger]
            self.env.files.contains_key(url) && self.env.files[url] is Some
                ==> self.sources.contains((url, self.env.files[url]->0))
    }
}

/// Whether nothing is left to be looked up: it is known where all paths of some texts lead, and
/// what is in the files that they lead to and that are asked for, as far as those are not held;
/// and the paths of these files are followed too. Either all these documents have room together,
/// or what is in the files of those that are held is known as well.
pub open spec fn complete(
    env: EnvView,
    held: Set<Seq<char>>,
    sources: Seq<Source>,
    wanted: Set<Seq<char>>,
) -> bool {
    &&& forall|i: int, path: Seq<char>|
        0 <= i < sources.len() && paths_in(sources[i].1).contains(path) ==> #[trigger] env.link_from(
            sources[i].0,
            path,
            0,
        ) is Some
    &&& forall|k: int|
        0 <= k < env.links.len() && (#[trigger] env.links[k]).target is Some ==> held.contains(
            env.links[k].target->0,
        ) || env.files.contains_key(env.links[k].target->0)
    &&& forall|url: Seq<char>| #[trigger] wanted.contains(url) ==> env.files.contains_key(url)
    &&& forall|i: int| 0 <= i < sources.len() ==> Tree::parse((#[trigger] sources[i]).1).wf()
    &&& held.finite()
    &&& env.files.dom().finite()
    &&& held.len() + env.files.dom().len() <= CACHE_LIMIT || forall|url: Seq<char>| #[trigger]
        held.contains(url) ==> env.files.contains_key(url)
    &&& forall|url: Seq<char>| #[trigger]
        env.files.contains_key(url) && env.files[url] is Some ==> sources.contains(
            (url, env.files[url]->0),
        )
}

/// A link that is known stays known when another is added, and the other is known then.
proof fn lemma_link_added(env: EnvView, link: LinkView, url: Seq<char>, path: Seq<char>, k: int)
    requires
        0 <= k <= env.links.len(),
    ensures
        ({
            let now = EnvView { links: env.links.push(link), ..env };
            &&& env.link_from(url, path, k) is Some ==> now.link_from(url, path, k) is Some
            &&& link.url == url && link.path == path ==> now.link_from(url, path, k) is Some
        }),
    decreases env.links.len() - k,
{
    let now = EnvView { links: env.links.push(link), ..env };
    if k < env.links.len() {
        lemma_link_added(env, link, url, path, k + 1);
    } else {
        assert(now.links[k] == link);
    }
}

/// What a list holds, a longer one holds too.
proof fn lemma_held_by_longer<A>(list: Seq<A>, more: Seq<A>, x: A)
    requires
        list.contains(x),
    ensures
        (list + more).contains(x),
{
    let j = choose|j: int| 0 <= j < list.len() && list[j] == x;
    assert((list + more)[j] == x);
}

/// The brackets and line ends around a path are taken off.
pub(crate) fn strip_path(path: &str) -> (name: &str)
    ensures
        name@ == bare_path(path@),
{
    let n: usize = path.unicode_len();
    let mut from: usize = 0;
    assert(path@.subrange(0, n as int) =~= path@);
    while from < n && is_around_path(path.get_char(from))
        invariant
            from <= n,
            n == path@.len(),
            without_start(path@) == without_start(path@.subrange(from as int, n as int)),
        decreases n - from,
    {
        assert(path@.subrange(from as int, n as int).drop_first() =~= path@.subrange(
            from + 1,
            n as int,
        ));
        from += 1;
    }
    let ghost rest = path@.subrange(from as int, n as int);
    assert(without_start(rest) == rest);
    let mut to: usize = n;
    while from < to && is_around_path(path.get_char(to - 1))
        invariant
            from <= to <= n,
            n == path@.len(),
            without_end(rest) == without_end(path@.subrange(from as int, to as int)),
        decreases to,
    {
        assert(path@.subrange(from as int, to as int).drop_last() =~= path@.subrange(
            from as int,
            to - 1,
        ));
        to -= 1;
    }
    path.substring_char(from, to)
}

/// Whether a character is a bracket around a path, or a line end.
fn is_around_path(c: char) -> (r: bool)
    ensures
        r == around_path(c),
{
    c == '<' || c == '>' || c == '\n'
}

/// The addresses that a path in a document may lead to.
pub fn find_candidates(url: &str, path: &str, libraries: &Vec<String>) -> (candidates: Vec<String>)
    ensures
        texts(candidates@) == link_candidates(url@, path@, texts(libraries@)),
{
    find_below(url, strip_path(path), libraries)
}

/// The addresses that a name beside a document or in the libraries may lead to.
pub(crate) fn find_below(url: &str, name: &str, libraries: &Vec<String>) -> (candidates: Vec<
    String,
>)
    ensures
        texts(candidates@) == below(seq![url@] + texts(libraries@), name@),
{
    let ghost bases = seq![url@] + texts(libraries@);
    let mut candidates: Vec<String> = Vec::new();
    match join_url(url, name) {
        Some(target) => candidates.push(target),
        None => {},
    }
    proof {
        assert(bases.take(1) =~= seq![url@]);
        assert(seq![url@].drop_last() =~= Seq::empty());
        reveal_with_fuel(below, 2);
        assert(texts(candidates@) =~= below(bases.take(1), name@));
    }
    let mut k: usize = 0;
    while k < libraries.len()
        invariant
            k <= libraries@.len(),
            bases == seq![url@] + texts(libraries@),
            texts(candidates@) == below(bases.take(k + 1), name@),
        decreases libraries@.len() - k,
    {
        let ghost before = texts(candidates@);
        proof {
            assert(bases.take(k + 2).drop_last() =~= bases.take(k + 1));
            assert(bases.take(k + 2).last() == libraries@[k as int]@);
        }
        match join_url(libraries[k].as_str(), name) {
            Some(target) => {
                candidates.push(target);
                assert(texts(candidates@) =~= before.push(target@));
            },
            None => {},
        }
        k += 1;
    }
    assert(bases.take(libraries@.len() as int + 1) =~= bases);
    candidates
}

impl Gathering {
    /// All that is needed is known or will be looked up.
    pub open spec fn wf(self) -> bool {
        self@.covered() && self.lists_held()
    }

    /// The list of the documents that are held fits.
    pub closed spec fn lists_held(self) -> bool {
        texts(self.held_urls@).to_set() == self@.held
    }

    /// Nothing is known yet and nothing asked for, beside documents that are held.
    pub(crate) fn new(held_urls: Vec<String>, libraries: Vec<String>) -> (gathering: Gathering)
        ensures
            gathering.wf(),
            gathering@.held == texts(held_urls@).to_set(),
            !gathering@.crowded,
            gathering@.libraries == texts(libraries@),
            gathering@.sources == Seq::<Source>::empty(),
            gathering@.wanted == Set::<Seq<char>>::empty(),
            gathering@.tasks == Seq::<TaskView>::empty(),
            gathering@.env.files == Map::<Seq<char>, Option<Seq<char>>>::empty(),
            gathering@.env.links == Seq::<LinkView>::empty(),
    {
        let ghost urls = texts(held_urls@);
        let mut held = StringHashSet::new();
        assert(urls.take(0).to_set() =~= Set::empty());
        let mut k: usize = 0;
        while k < held_urls.len()
            invariant
                k <= held_urls@.len(),
                urls == texts(held_urls@),
                held@ == urls.take(k as int).to_set(),
            decreases held_urls@.len() - k,
        {
            proof {
                assert(urls.take(k + 1) =~= urls.take(k as int).push(held_urls@[k as int]@));
                lemma_push_to_set(urls.take(k as int), held_urls@[k as int]@);
            }
            held.insert(held_urls[k].clone());
            k += 1;
        }
        assert(urls.take(held_urls@.len() as int) =~= urls);
        let gathering = Gathering {
            env: Environment::new(),
            tasks: Vec::new(),
            held,
            held_urls,
            crowded: false,
            libraries,
            sources: Ghost(Seq::empty()),
            wanted: Ghost(Set::empty()),
        };
        assert(gathering@.tasks =~= Seq::empty());
        gathering
    }

    /// Follows paths of a document.
    fn add_paths(&mut self, url: &str, paths: &Vec<String>)
        ensures
            final(self)@.tasks == old(self)@.tasks + texts(paths@).map_values(
                |path: Seq<char>| TaskView::Resolve(url@, path),
            ),
            final(self)@ == (GatheringView { tasks: final(self)@.tasks, ..old(self)@ }),
            old(self).lists_held() ==> final(self).lists_held(),
    {
        let ghost start = self@;
        let ghost all = texts(paths@);
        let ghost made = all.map_values(|path: Seq<char>| TaskView::Resolve(url@, path));
        assert(self@.tasks =~= start.tasks + made.take(0));
        let mut k: usize = 0;
        while k < paths.len()
            invariant
                k <= paths@.len(),
                all == texts(paths@),
                made == all.map_values(|path: Seq<char>| TaskView::Resolve(url@, path)),
                self@.tasks == start.tasks + made.take(k as int),
                self@ == (GatheringView { tasks: self@.tasks, ..start }),
                start == old(self)@,
                self.held_urls == old(self).held_urls,
            decreases paths@.len() - k,
        {
            let ghost before = self@.tasks;
            let task = Task::Resolve(url.to_owned(), paths[k].clone());
            self.tasks.push(task);
            proof {
                assert(self@.tasks =~= before.push(task@));
                assert(made.take(k + 1) =~= made.take(k as int).push(made[k as int]));
                assert(start.tasks + made.take(k + 1) =~= (start.tasks + made.take(k as int)).push(
                    made[k as int],
                ));
            }
            k += 1;
        }
        assert(made.take(paths@.len() as int) =~= made);
    }

    /// Follows the paths of a document that is held.
    pub(crate) fn add_document(&mut self, doc: &ParsedCode)
        requires
            old(self).wf(),
            doc@.wf(),
        ensures
            final(self).wf(),
            final(self)@.sources == old(self)@.sources.push((doc@.url, doc@.code)),
            final(self)@.env == old(self)@.env,
            final(self)@.held == old(self)@.held,
            final(self)@.crowded == old(self)@.crowded,
            final(self)@.libraries == old(self)@.libraries,
            final(self)@.wanted == old(self)@.wanted,
    {
        let paths = doc.links();
        proof {
            lemma_same_paths(doc@);
        }
        let ghost before = self@;
        self.add_paths(doc.url.as_str(), &paths);
        self.sources = Ghost(self.sources@.push((doc@.url, doc@.code)));
        proof {
            lemma_source_added(before, self@, doc@.url, doc@.code);
        }
    }

    /// Follows the paths of a text that a document is about to have.
    pub fn add_text(&mut self, url: &str, text: &str)
        requires
            old(self).wf(),
        ensures
            final(self).wf(),
            final(self)@.sources == old(self)@.sources.push((url@, text@)),
            final(self)@.env == old(self)@.env,
            final(self)@.held == old(self)@.held,
            final(self)@.crowded == old(self)@.crowded,
            final(self)@.libraries == old(self)@.libraries,
            final(self)@.wanted == old(self)@.wanted,
    {
        let doc = ParsedCode::new(text.to_owned(), url.to_owned());
        self.add_document(&doc);
    }

    /// Asks for a file.
    pub fn ask_for(&mut self, url: &str)
        requires
            old(self).wf(),
        ensures
            final(self).wf(),
            final(self)@.wanted == old(self)@.wanted.insert(url@),
            final(self)@.sources == old(self)@.sources,
            final(self)@.env == old(self)@.env,
            final(self)@.held == old(self)@.held,
            final(self)@.crowded == old(self)@.crowded,
            final(self)@.libraries == old(self)@.libraries,
    {
        let ghost before = self@;
        let task = Task::Read(url.to_owned());
        self.tasks.push(task);
        self.wanted = Ghost(self.wanted@.insert(url@));
        proof {
            assert(self@.tasks =~= before.tasks + seq![TaskView::Read(url@)]);
            let middle = GatheringView { tasks: self@.tasks, ..before };
            lemma_more_tasks(before, middle, seq![TaskView::Read(url@)]);
            assert(self@.tasks[before.tasks.len() as int] == TaskView::Read(url@));
            assert forall|u: Seq<char>| #[trigger] self@.wanted.contains(u) implies self@.file_covered(
                u,
            ) by {
                if u != url@ {
                    assert(before.wanted.contains(u));
                    assert(middle.file_covered(u));
                }
            }
            lemma_same_cover(middle, self@);
        }
    }

    /// Asks for a file that is not held.
    pub fn ask_for_unless_held(&mut self, url: &str)
        requires
            old(self).wf(),
        ensures
            final(self).wf(),
            final(self)@.wanted == (if old(self)@.held.contains(url@) {
                old(self)@.wanted
            } else {
                old(self)@.wanted.insert(url@)
            }),
            final(self)@.sources == old(self)@.sources,
            final(self)@.env == old(self)@.env,
            final(self)@.held == old(self)@.held,
            final(self)@.crowded == old(self)@.crowded,
            final(self)@.libraries == old(self)@.libraries,
    {
        if !self.held.contains(url) {
            self.ask_for(url);
        }
    }

    /// Drops what is known of what is to be looked up, and gives the first that is not.
    fn drain(&mut self) -> (lookup: Option<Lookup>)
        requires
            old(self).wf(),
        ensures
            final(self).wf(),
            final(self)@ == (GatheringView { tasks: final(self)@.tasks, ..old(self)@ }),
            match lookup {
                Some(Lookup::Read { url }) => !final(self)@.env.files.contains_key(url@),
                Some(Lookup::Resolve { url, path, candidates }) => final(self)@.env.link_from(
                    url@,
                    path@,
                    0,
                ) is None && texts(candidates@) == link_candidates(
                    url@,
                    path@,
                    final(self)@.libraries,
                ),
                Some(Lookup::Done) => false,
                None => final(self)@.tasks.len() == 0,
            },
    {
        let ghost start = self@;
        while self.tasks.len() > 0
            invariant
                self.wf(),
                start == old(self)@,
                self@ == (GatheringView { tasks: self@.tasks, ..start }),
            decreases self.tasks@.len(),
        {
            let ghost before = self@;
            let last: usize = self.tasks.len() - 1;
            assert(before.tasks[last as int] == self.tasks@[last as int]@);
            match &self.tasks[last] {
                Task::Read(url) => {
                    if !self.env.knows_file(url.as_str()) {
                        return Some(Lookup::Read { url: url.clone() });
                    }
                },
                Task::Resolve(url, path) => {
                    if !self.env.knows_link(url.as_str(), path.as_str()) {
                        let candidates = find_candidates(
                            url.as_str(),
                            path.as_str(),
                            &self.libraries,
                        );
                        return Some(
                            Lookup::Resolve { url: url.clone(), path: path.clone(), candidates },
                        );
                    }
                },
            }
            self.tasks.pop();
            proof {
                assert(self@.tasks =~= before.tasks.drop_last());
                lemma_task_done(before, self@);
            }
        }
        None
    }

    /// Has the documents that are held read too.
    fn crowd(&mut self)
        requires
            old(self).wf(),
        ensures
            final(self).wf(),
            final(self)@ == (GatheringView {
                tasks: final(self)@.tasks,
                crowded: true,
                ..old(self)@
            }),
    {
        let ghost start = self@;
        let ghost urls = texts(self.held_urls@);
        let mut k: usize = 0;
        while k < self.held_urls.len()
            invariant
                k <= self.held_urls@.len(),
                self.wf(),
                start == old(self)@,
                urls == texts(self.held_urls@),
                urls.to_set() == start.held,
                self@ == (GatheringView { tasks: self@.tasks, ..start }),
                forall|j: int| 0 <= j < k ==> self@.file_covered(#[trigger] urls[j]),
            decreases self.held_urls@.len() - k,
        {
            let ghost before = self@;
            let task = Task::Read(self.held_urls[k].clone());
            self.tasks.push(task);
            proof {
                assert(self@.tasks =~= before.tasks + seq![task@]);
                assert(self@.tasks[before.tasks.len() as int] == task@);
                lemma_more_tasks(before, self@, seq![task@]);
                assert forall|j: int| 0 <= j < k + 1 implies self@.file_covered(
                    #[trigger] urls[j],
                ) by {
                    if j < k {
                        assert(before.file_covered(urls[j]));
                    }
                }
            }
            k += 1;
        }
        let ghost before = self@;
        self.crowded = true;
        proof {
            assert forall|u: Seq<char>| #[trigger] self@.held.contains(u) implies before.file_covered(
                u,
            ) by {
                assert(urls.to_set().contains(u));
                let j = choose|j: int| 0 <= j < urls.len() && urls[j] == u;
                assert(before.file_covered(urls[j]));
            }
            lemma_crowded(before, self@);
        }
    }

    /// What is to be looked up next. Once nothing is left, all that is needed is known.
    pub fn next(&mut self) -> (lookup: Lookup)
        requires
            old(self).wf(),
        ensures
            final(self).wf(),
            final(self)@ == (GatheringView {
                tasks: final(self)@.tasks,
                crowded: final(self)@.crowded,
                ..old(self)@
            }),
            match lookup {
                Lookup::Read { url } => !final(self)@.env.files.contains_key(url@),
                Lookup::Resolve { url, path, candidates } => final(self)@.env.link_from(
                    url@,
                    path@,
                    0,
                ) is None && texts(candidates@) == link_candidates(
                    url@,
                    path@,
                    final(self)@.libraries,
                ),
                Lookup::Done => complete(
                    final(self)@.env,
                    final(self)@.held,
                    final(self)@.sources,
                    final(self)@.wanted,
                ),
            },
    {
        match self.drain() {
            Some(lookup) => {
                return lookup;
            },
            None => {},
        }
        if !self.crowded {
            let held: usize = self.held.len();
            if held > CACHE_LIMIT || self.env.known_files() > CACHE_LIMIT - held {
                self.crowd();
                match self.drain() {
                    Some(lookup) => {
                        return lookup;
                    },
                    None => {},
                }
            }
        }
        proof {
            lemma_complete(self@);
        }
        Lookup::Done
    }

    /// Takes what reading a file gave.
    pub fn give_text(&mut self, url: String, text: Option<String>)
        requires
            old(self).wf(),
            !old(self)@.env.files.contains_key(url@),
        ensures
            final(self).wf(),
            final(self)@.env.files == old(self)@.env.files.insert(url@, text_of(text)),
            final(self)@.env.links == old(self)@.env.links,
            final(self)@.sources == (match text_of(text) {
                Some(code) => old(self)@.sources.push((url@, code)),
                None => old(self)@.sources,
            }),
            final(self)@.held == old(self)@.held,
            final(self)@.crowded == old(self)@.crowded,
            final(self)@.libraries == old(self)@.libraries,
            final(self)@.wanted == old(self)@.wanted,
    {
        let ghost start = self@;
        match &text {
            Some(code) => self.add_text(url.as_str(), code.as_str()),
            None => {},
        }
        let ghost middle = self@;
        self.env.add_file(url, text);
        proof {
            lemma_file_added(middle, self@, url@, text_of(text));
        }
    }

    /// Takes where a path in a document leads.
    pub fn give_link(&mut self, url: String, path: String, target: Option<String>)
        requires
            old(self).wf(),
        ensures
            final(self).wf(),
            final(self)@.env.files == old(self)@.env.files,
            final(self)@.env.links == old(self)@.env.links.push(
                LinkView { url: url@, path: path@, target: text_of(target) },
            ),
            final(self)@.sources == old(self)@.sources,
            final(self)@.held == old(self)@.held,
            final(self)@.crowded == old(self)@.crowded,
            final(self)@.libraries == old(self)@.libraries,
            final(self)@.wanted == old(self)@.wanted,
    {
        let ghost start = self@;
        match &target {
            Some(target) => if !self.held.contains(target.as_str()) {
                self.tasks.push(Task::Read(target.clone()));
                proof {
                    assert(self@.tasks =~= start.tasks + seq![TaskView::Read(target@)]);
                    lemma_more_tasks(start, self@, seq![TaskView::Read(target@)]);
                    assert(self@.tasks[start.tasks.len() as int] == TaskView::Read(target@));
                }
            },
            None => {},
        }
        let ghost middle = self@;
        let ghost link = LinkView { url: url@, path: path@, target: text_of(target) };
        self.env.add_link(url, path, target);
        proof {
            assert(self@.env.links =~= middle.env.links.push(link));
            lemma_link_known(middle, self@, link);
        }
    }

    /// What is known in the end.
    pub fn finish(self) -> (env: Environment)
        ensures
            env@ == self@.env,
    {
        self.env
    }
}

/// The paths of a document are those of its text.
pub(crate) proof fn lemma_same_paths(doc: DocView)
    requires
        doc.wf(),
    ensures
        doc.link_paths(doc.tree.len()) == paths_in(doc.code),
{
    let fresh = DocView::fresh(doc.code, Seq::empty());
    lemma_same_paths_upto(doc, fresh, doc.tree.len());
}

/// Documents of the same text write the same paths.
proof fn lemma_same_paths_upto(a: DocView, b: DocView, k: int)
    requires
        a.tree == b.tree,
        a.code == b.code,
    ensures
        a.link_paths(k) == b.link_paths(k),
    decreases k,
{
    if k > 0 {
        lemma_same_paths_upto(a, b, k - 1);
    }
}

/// With more to be looked up, what was covered still is.
proof fn lemma_more_tasks(before: GatheringView, after: GatheringView, more: Seq<TaskView>)
    requires
        before.covered(),
        after == (GatheringView { tasks: before.tasks + more, ..before }),
    ensures
        after.covered(),
        forall|url: Seq<char>| before.file_covered(url) ==> #[trigger] after.file_covered(url),
        forall|url: Seq<char>, path: Seq<char>|
            before.link_covered(url, path) ==> #[trigger] after.link_covered(url, path),
{
    assert forall|url: Seq<char>| before.file_covered(url) implies #[trigger] after.file_covered(
        url,
    ) by {
        if before.tasks.contains(TaskView::Read(url)) {
            lemma_held_by_longer(before.tasks, more, TaskView::Read(url));
        }
    }
    assert forall|url: Seq<char>, path: Seq<char>| before.link_covered(
        url,
        path,
    ) implies #[trigger] after.link_covered(url, path) by {
        if before.tasks.contains(TaskView::Resolve(url, path)) {
            lemma_held_by_longer(before.tasks, more, TaskView::Resolve(url, path));
        }
    }
    assert forall|u: Seq<char>| after.crowded && #[trigger] after.held.contains(u) implies
        after.file_covered(u) by {
        assert(before.held.contains(u));
        assert(before.file_covered(u));
    }
    assert forall|i: int, path: Seq<char>|
        0 <= i < after.sources.len() && paths_in(after.sources[i].1).contains(path) implies
        #[trigger] after.link_covered(after.sources[i].0, path) by {
        assert(before.link_covered(before.sources[i].0, path));
    }
}

/// What is covered does not depend on what is asked for, but for what is asked for.
proof fn lemma_same_cover(before: GatheringView, after: GatheringView)
    requires
        before.covered(),
        after == (GatheringView { wanted: after.wanted, ..before }),
        forall|url: Seq<char>| #[trigger] after.wanted.contains(url) ==> after.file_covered(url),
    ensures
        after.covered(),
{
    assert forall|i: int, path: Seq<char>|
        0 <= i < after.sources.len() && paths_in(after.sources[i].1).contains(path) implies
        #[trigger] after.link_covered(after.sources[i].0, path) by {
        assert(before.link_covered(before.sources[i].0, path));
    }
    assert forall|u: Seq<char>| after.crowded && #[trigger] after.held.contains(u) implies
        after.file_covered(u) by {
        assert(before.held.contains(u));
        assert(before.file_covered(u));
    }
    assert forall|k: int|
        0 <= k < after.env.links.len() && (
        #[trigger] after.env.links[k]).target is Some implies after.held.contains(
        after.env.links[k].target->0,
    ) || after.file_covered(after.env.links[k].target->0) by {
        assert(before.env.links[k] == after.env.links[k]);
        assert(before.held.contains(before.env.links[k].target->0) || before.file_covered(
            before.env.links[k].target->0,
        ));
    }
}

/// The documents that are held may be dropped once their files are covered.
proof fn lemma_crowded(before: GatheringView, after: GatheringView)
    requires
        before.covered(),
        after == (GatheringView { crowded: true, ..before }),
        forall|url: Seq<char>| #[trigger] after.held.contains(url) ==> before.file_covered(url),
    ensures
        after.covered(),
{
    assert forall|i: int, path: Seq<char>|
        0 <= i < after.sources.len() && paths_in(after.sources[i].1).contains(path) implies
        #[trigger] after.link_covered(after.sources[i].0, path) by {
        assert(before.link_covered(before.sources[i].0, path));
    }
    assert forall|u: Seq<char>| #[trigger] after.held.contains(u) implies after.file_covered(u) by {
        assert(before.file_covered(u));
    }
    assert forall|k: int|
        0 <= k < after.env.links.len() && (
        #[trigger] after.env.links[k]).target is Some implies after.held.contains(
        after.env.links[k].target->0,
    ) || after.file_covered(after.env.links[k].target->0) by {
        assert(before.env.links[k] == after.env.links[k]);
        assert(before.held.contains(before.env.links[k].target->0) || before.file_covered(
            before.env.links[k].target->0,
        ));
    }
    assert forall|u: Seq<char>| #[trigger] after.wanted.contains(u) implies after.file_covered(
        u,
    ) by {
        assert(before.wanted.contains(u));
        assert(before.file_covered(u));
    }
}

/// A text whose paths will all be looked up can be added.
proof fn lemma_source_added(
    before: GatheringView,
    after: GatheringView,
    url: Seq<char>,
    code: Seq<char>,
)
    requires
        before.covered(),
        Tree::parse(code).wf(),
        after.tasks == before.tasks + paths_in(code).map_values(
            |path: Seq<char>| TaskView::Resolve(url, path),
        ),
        after == (GatheringView {
            tasks: after.tasks,
            sources: before.sources.push((url, code)),
            ..before
        }),
    ensures
        after.covered(),
{
    let more = paths_in(code).map_values(|path: Seq<char>| TaskView::Resolve(url, path));
    let middle = GatheringView { tasks: after.tasks, ..before };
    lemma_more_tasks(before, middle, more);
    assert forall|i: int, path: Seq<char>|
        0 <= i < after.sources.len() && paths_in(after.sources[i].1).contains(path) implies
        #[trigger] after.link_covered(after.sources[i].0, path) by {
        if i < before.sources.len() {
            assert(after.sources[i] == middle.sources[i]);
            assert(middle.link_covered(middle.sources[i].0, path));
        } else {
            let paths = paths_in(code);
            let j = choose|j: int| 0 <= j < paths.len() && paths[j] == path;
            assert(more[j] == TaskView::Resolve(url, path));
            assert(after.tasks[before.tasks.len() + j] == TaskView::Resolve(url, path));
        }
    }
    assert forall|u: Seq<char>| after.crowded && #[trigger] after.held.contains(u) implies
        after.file_covered(u) by {
        assert(middle.held.contains(u));
        assert(middle.file_covered(u));
    }
    assert forall|k: int|
        0 <= k < after.env.links.len() && (
        #[trigger] after.env.links[k]).target is Some implies after.held.contains(
        after.env.links[k].target->0,
    ) || after.file_covered(after.env.links[k].target->0) by {
        assert(middle.env.links[k] == after.env.links[k]);
        assert(middle.held.contains(middle.env.links[k].target->0) || middle.file_covered(
            middle.env.links[k].target->0,
        ));
    }
    assert forall|u: Seq<char>| #[trigger] after.wanted.contains(u) implies after.file_covered(
        u,
    ) by {
        assert(middle.wanted.contains(u));
        assert(middle.file_covered(u));
    }
    assert forall|u: Seq<char>| #[trigger]
        after.env.files.contains_key(u) && after.env.files[u] is Some implies after.sources.contains(
        (u, after.env.files[u]->0),
    ) by {
        assert(before.sources.contains((u, before.env.files[u]->0)));
        lemma_held_by_longer(before.sources, seq![(url, code)], (u, before.env.files[u]->0));
        assert(before.sources + seq![(url, code)] =~= after.sources);
    }
}

/// A task that is known to be done can be dropped.
proof fn lemma_task_done(before: GatheringView, after: GatheringView)
    requires
        before.covered(),
        before.tasks.len() > 0,
        after == (GatheringView { tasks: before.tasks.drop_last(), ..before }),
        match before.tasks.last() {
            TaskView::Read(url) => before.env.files.contains_key(url),
            TaskView::Resolve(url, path) => before.env.link_from(url, path, 0) is Some,
        },
    ensures
        after.covered(),
{
    let last = before.tasks.last();
    assert forall|task: TaskView| before.tasks.contains(task) && task != last implies
        #[trigger] after.tasks.contains(task) by {
        let j = choose|j: int| 0 <= j < before.tasks.len() && before.tasks[j] == task;
        assert(after.tasks[j] == task);
    }
    assert forall|url: Seq<char>| before.file_covered(url) implies #[trigger] after.file_covered(
        url,
    ) by {
        if before.tasks.contains(TaskView::Read(url)) && TaskView::Read(url) != last {
            assert(after.tasks.contains(TaskView::Read(url)));
        }
    }
    assert forall|i: int, path: Seq<char>|
        0 <= i < after.sources.len() && paths_in(after.sources[i].1).contains(path) implies
        #[trigger] after.link_covered(after.sources[i].0, path) by {
        let task = TaskView::Resolve(after.sources[i].0, path);
        assert(before.link_covered(before.sources[i].0, path));
        if before.tasks.contains(task) && task != last {
            assert(after.tasks.contains(task));
        }
    }
    assert forall|u: Seq<char>| after.crowded && #[trigger] after.held.contains(u) implies
        after.file_covered(u) by {
        assert(before.held.contains(u));
        assert(before.file_covered(u));
    }
    assert forall|k: int|
        0 <= k < after.env.links.len() && (
        #[trigger] after.env.links[k]).target is Some implies after.held.contains(
        after.env.links[k].target->0,
    ) || after.file_covered(after.env.links[k].target->0) by {
        assert(before.env.links[k] == after.env.links[k]);
        assert(before.held.contains(before.env.links[k].target->0) || before.file_covered(
            before.env.links[k].target->0,
        ));
    }
    assert forall|url: Seq<char>| #[trigger] after.wanted.contains(url) implies after.file_covered(
        url,
    ) by {
        assert(before.wanted.contains(url));
        assert(before.file_covered(url));
    }
}

/// A file can be added whose text, if it has one, is among the texts.
proof fn lemma_file_added(
    before: GatheringView,
    after: GatheringView,
    url: Seq<char>,
    text: Option<Seq<char>>,
)
    requires
        before.covered(),
        after.env.files == before.env.files.insert(url, text),
        after.env.links == before.env.links,
        after == (GatheringView { env: after.env, ..before }),
        text is Some ==> before.sources.len() > 0 && before.sources.last() == (url, text->0),
    ensures
        after.covered(),
{
    assert forall|i: int, path: Seq<char>|
        0 <= i < after.sources.len() && paths_in(after.sources[i].1).contains(path) implies
        #[trigger] after.link_covered(after.sources[i].0, path) by {
        assert(before.link_covered(before.sources[i].0, path));
        lemma_links_alone(before.env, after.env, after.sources[i].0, path, 0);
    }
    assert forall|u: Seq<char>| after.crowded && #[trigger] after.held.contains(u) implies
        after.file_covered(u) by {
        assert(before.held.contains(u));
        assert(before.file_covered(u));
    }
    assert forall|k: int|
        0 <= k < after.env.links.len() && (
        #[trigger] after.env.links[k]).target is Some implies after.held.contains(
        after.env.links[k].target->0,
    ) || after.file_covered(after.env.links[k].target->0) by {
        assert(before.env.links[k] == after.env.links[k]);
        assert(before.held.contains(before.env.links[k].target->0) || before.file_covered(
            before.env.links[k].target->0,
        ));
    }
    assert forall|u: Seq<char>| #[trigger] after.wanted.contains(u) implies after.file_covered(
        u,
    ) by {
        assert(before.wanted.contains(u));
        assert(before.file_covered(u));
    }
    assert forall|u: Seq<char>| #[trigger]
        after.env.files.contains_key(u) && after.env.files[u] is Some implies after.sources.contains(
        (u, after.env.files[u]->0),
    ) by {
        if u == url {
            assert(after.sources[after.sources.len() - 1] == (url, text->0));
        } else {
            assert(before.env.files.contains_key(u));
        }
    }
}

/// Where paths lead does not depend on what is in files.
proof fn lemma_links_alone(a: EnvView, b: EnvView, url: Seq<char>, path: Seq<char>, k: int)
    requires
        a.links == b.links,
    ensures
        a.link_from(url, path, k) == b.link_from(url, path, k),
    decreases a.links.len() - k,
{
    if 0 <= k < a.links.len() {
        lemma_links_alone(a, b, url, path, k + 1);
    }
}

/// A link can be added whose target, if it has one, is held or covered.
proof fn lemma_link_known(before: GatheringView, after: GatheringView, link: LinkView)
    requires
        before.covered(),
        after.env.files == before.env.files,
        after.env.links == before.env.links.push(link),
        after == (GatheringView { env: after.env, ..before }),
        link.target is Some ==> before.held.contains(link.target->0) || before.file_covered(
            link.target->0,
        ),
    ensures
        after.covered(),
{
    let now = EnvView { links: before.env.links.push(link), ..before.env };
    assert(now == after.env);
    assert forall|i: int, path: Seq<char>|
        0 <= i < after.sources.len() && paths_in(after.sources[i].1).contains(path) implies
        #[trigger] after.link_covered(after.sources[i].0, path) by {
        assert(before.link_covered(before.sources[i].0, path));
        lemma_link_added(before.env, link, after.sources[i].0, path, 0);
    }
    assert forall|u: Seq<char>| after.crowded && #[trigger] after.held.contains(u) implies
        after.file_covered(u) by {
        assert(before.held.contains(u));
        assert(before.file_covered(u));
    }
    assert forall|k: int|
        0 <= k < after.env.links.len() && (
        #[trigger] after.env.links[k]).target is Some implies after.held.contains(
        after.env.links[k].target->0,
    ) || after.file_covered(after.env.links[k].target->0) by {
        if k < before.env.links.len() {
            assert(before.env.links[k] == after.env.links[k]);
            assert(before.held.contains(before.env.links[k].target->0) || before.file_covered(
                before.env.links[k].target->0,
            ));
        }
    }
    assert forall|u: Seq<char>| #[trigger] after.wanted.contains(u) implies after.file_covered(
        u,
    ) by {
        assert(before.wanted.contains(u));
        assert(before.file_covered(u));
    }
}

/// Where nothing is left to be looked up, all that is covered is known.
proof fn lemma_complete(all: GatheringView)
    requires
        all.covered(),
        all.tasks.len() == 0,
        all.crowded || all.held.len() + all.env.files.dom().len() <= CACHE_LIMIT,
    ensures
        complete(all.env, all.held, all.sources, all.wanted),
{
    assert forall|i: int, path: Seq<char>|
        0 <= i < all.sources.len() && paths_in(all.sources[i].1).contains(path) implies
        #[trigger] all.env.link_from(all.sources[i].0, path, 0) is Some by {
        assert(all.link_covered(all.sources[i].0, path));
    }
    assert forall|k: int|
        0 <= k < all.env.links.len() && (#[trigger] all.env.links[k]).target is Some implies
        all.held.contains(all.env.links[k].target->0) || all.env.files.contains_key(
        all.env.links[k].target->0,
    ) by {
        assert(all.held.contains(all.env.links[k].target->0) || all.file_covered(
            all.env.links[k].target->0,
        ));
    }
    assert forall|url: Seq<char>| #[trigger] all.wanted.contains(url) implies
        all.env.files.contains_key(url) by {
        assert(all.file_covered(url));
    }
    if all.crowded {
        assert forall|url: Seq<char>| #[trigger] all.held.contains(url) implies
            all.env.files.contains_key(url) by {
            assert(all.file_covered(url));
        }
    }
}

} // verus!
