use vstd::hash_map::StringHashMap;
use vstd::prelude::*;

use crate::syntax::text_of;
use crate::text::same_text;

verus! {

/// What one `include` or `use` of a document leads to.
#[derive(Debug)]
pub struct Link {
    /// The document that holds the statement.
    pub url: String,
    /// The path as the statement writes it.
    pub path: String,
    /// The document that the path leads to, if there is one.
    pub target: Option<String>,
}

/// The model of a [`Link`].
#[verifier::ext_equal]
pub struct LinkView {
    pub url: Seq<char>,
    pub path: Seq<char>,
    pub target: Option<Seq<char>>,
}

impl View for Link {
    type V = LinkView;

    open spec fn view(&self) -> LinkView {
        LinkView { url: self.url@, path: self.path@, target: text_of(self.target) }
    }
}

/// What is known of the files outside: what reading them gave, and where paths lead.
pub struct Environment {
    files: StringHashMap<Option<String>>,
    links: Vec<Link>,
}

/// The model of an [`Environment`].
#[verifier::ext_equal]
pub struct EnvView {
    pub files: Map<Seq<char>, Option<Seq<char>>>,
    pub links: Seq<LinkView>,
}

impl View for Environment {
    type V = EnvView;

    closed spec fn view(&self) -> EnvView {
        EnvView {
            files: self.files@.map_values(|t: Option<String>| text_of(t)),
            links: self.links@.map_values(|l: Link| l@),
        }
    }
}

impl EnvView {
    /// What reading a file gave; a file that nothing is known of cannot be read.
    pub open spec fn read(self, url: Seq<char>) -> Option<Seq<char>> {
        if self.files.contains_key(url) {
            self.files[url]
        } else {
            None
        }
    }

    /// The first link from place `k` on of a path in a document.
    pub open spec fn link_from(self, url: Seq<char>, path: Seq<char>, k: int) -> Option<int>
        decreases self.links.len() - k,
    {
        if k < 0 || k >= self.links.len() {
            None
        } else if self.links[k].url == url && self.links[k].path == path {
            Some(k)
        } else {
            self.link_from(url, path, k + 1)
        }
    }

    /// Where a path in a document leads.
    pub open spec fn link(self, url: Seq<char>, path: Seq<char>) -> Option<Seq<char>> {
        match self.link_from(url, path, 0) {
            Some(k) => self.links[k].target,
            None => None,
        }
    }
}

impl Environment {
    /// An environment of which nothing is known.
    pub fn new() -> (env: Environment)
        ensures
            env@.files == Map::<Seq<char>, Option<Seq<char>>>::empty(),
            env@.links == Seq::<LinkView>::empty(),
    {
        let env = Environment { files: StringHashMap::new(), links: Vec::new() };
        assert(env@.files =~= Map::<Seq<char>, Option<Seq<char>>>::empty());
        assert(env@.links =~= Seq::<LinkView>::empty());
        env
    }

    /// Records what reading a file gave.
    pub fn add_file(&mut self, url: String, text: Option<String>)
        ensures
            final(self)@.files == old(self)@.files.insert(url@, text_of(text)),
            final(self)@.links == old(self)@.links,
    {
        self.files.insert(url, text);
        assert(self@.files =~= old(self)@.files.insert(url@, text_of(text)));
    }

    /// Records where a path in a document leads.
    pub fn add_link(&mut self, url: String, path: String, target: Option<String>)
        ensures
            final(self)@.files == old(self)@.files,
            final(self)@.links == old(self)@.links.push(
                LinkView { url: url@, path: path@, target: text_of(target) },
            ),
    {
        let link = Link { url, path, target };
        self.links.push(link);
        assert(self@.links =~= old(self)@.links.push(link@));
    }

    /// Whether it is known what reading a file gives.
    pub fn knows_file(&self, url: &str) -> (r: bool)
        ensures
            r == self@.files.contains_key(url@),
    {
        self.files.contains_key(url)
    }

    /// The number of files of which it is known what reading them gives.
    pub fn known_files(&self) -> (n: usize)
        ensures
            n == self@.files.dom().len(),
    {
        assert(self@.files.dom() =~= self.files@.dom());
        self.files.len()
    }

    /// What reading a file gave.
    pub fn read(&self, url: &str) -> (text: Option<String>)
        ensures
            text_of(text) == self@.read(url@),
    {
        match self.files.get(url) {
            Some(text) => match text {
                Some(text) => Some(text.clone()),
                None => None,
            },
            None => None,
        }
    }

    /// The place of the first link of a path in a document.
    fn find_link(&self, url: &str, path: &str) -> (place: Option<usize>)
        ensures
            match place {
                Some(k) => k < self.links@.len() && self@.link_from(url@, path@, 0) == Some(
                    k as int,
                ),
                None => self@.link_from(url@, path@, 0) is None,
            },
    {
        let mut k: usize = 0;
        while k < self.links.len()
            invariant
                k <= self.links@.len(),
                self@.links.len() == self.links@.len(),
                self@.link_from(url@, path@, 0) == self@.link_from(url@, path@, k as int),
            decreases self.links@.len() - k,
        {
            assert(self@.links[k as int] == self.links@[k as int]@);
            if same_text(self.links[k].url.as_str(), url) && same_text(
                self.links[k].path.as_str(),
                path,
            ) {
                return Some(k);
            }
            k += 1;
        }
        None
    }

    /// Whether it is known where a path in a document leads.
    pub fn knows_link(&self, url: &str, path: &str) -> (r: bool)
        ensures
            r == self@.link_from(url@, path@, 0) is Some,
    {
        self.find_link(url, path).is_some()
    }

    /// Where a path in a document leads.
    pub fn link(&self, url: &str, path: &str) -> (target: Option<String>)
        ensures
            text_of(target) == self@.link(url@, path@),
    {
        match self.find_link(url, path) {
            Some(k) => {
                assert(self@.links[k as int] == self.links@[k as int]@);
                match &self.links[k].target {
                    Some(target) => Some(target.clone()),
                    None => None,
                }
            },
            None => None,
        }
    }
}

} // verus!
