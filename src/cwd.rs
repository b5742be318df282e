use vstd::prelude::*;

verus! {

/// The working directory that leading dots resolve against: unset until
/// it is given or fetched, then held until it is replaced.
pub struct CWD {
    path: Option<String>,
}

pub open spec fn text_of(o: Option<String>) -> Option<Seq<char>> {
    match o {
        Some(s) => Some(s@),
        None => None,
    }
}

impl View for CWD {
    type V = Option<Seq<char>>;

    closed spec fn view(&self) -> Option<Seq<char>> {
        text_of(self.path)
    }
}

impl CWD {
    /// A working directory that is not known yet.
    pub fn new() -> (r: CWD)
        ensures
            r@ is None,
    {
        CWD { path: None }
    }

    /// A working directory given by the caller.
    pub fn from_path(path: String) -> (r: CWD)
        ensures
            r@ == Some(path@),
    {
        CWD { path: Some(path) }
    }

    /// Replaces the working directory with `path`.
    pub fn update(&mut self, path: String)
        ensures
            final(self)@ == Some(path@),
    {
        self.path = Some(path);
    }

    /// Fills in the working directory by calling `fetch`, unless it is
    /// already known; `fetch` reports `None` when it cannot tell.
    pub fn initial<F: FnOnce() -> Option<String>>(&mut self, fetch: F)
        requires
            old(self)@ is None ==> fetch.requires(()),
        ensures
            old(self)@ is Some ==> final(self)@ == old(self)@,
            old(self)@ is None ==> exists|r: Option<String>|
                fetch.ensures((), r) && final(self)@ == text_of(r),
    {
        if self.path.is_none() {
            let r = fetch();
            let ghost g = r;
            self.path = r;
            assert(fetch.ensures((), g) && self@ == text_of(g));
        }
    }

    /// Whether the working directory is known.
    pub fn is_known(&self) -> (r: bool)
        ensures
            r == self@ is Some,
    {
        self.path.is_some()
    }

    /// The working directory, if it is known.
    pub fn get(&self) -> (r: Option<&str>)
        ensures
            r is Some <==> self@ is Some,
            r is Some ==> self@ == Some(r->0@),
    {
        match &self.path {
            Some(s) => Some(s.as_str()),
            None => None,
        }
    }
}

} // verus!
