//! The builds of one provider, by commit, as far as its pages have been
//! read.
//!
//! The directory only grows: a page adds builds, and never replaces or
//! removes one.

use crate::error::DirectoryError;
use crate::name_map::NameMap;
use crate::text::string_view;
use vstd::prelude::*;

verus! {

/// The providers, which differ in how their builds are paged.
#[derive(Clone, Copy, Debug, PartialEq, Eq, Structural)]
pub enum Vendor {
    /// Pages are asked for by the number of builds to pass over.
    Travis,
    /// Each page names the one after it.
    AppVeyor,
    /// Only the first page can be asked for.
    Azure,
}

/// A page to ask a provider for.
#[derive(Clone, Debug, PartialEq, Eq)]
pub enum PageRequest {
    /// The first page.
    First,
    /// The page after this many builds.
    Offset(usize),
    /// The page that the page before it named.
    After(String),
}

/// The view of a request for a page.
pub enum PageRequestView {
    First,
    Offset(usize),
    After(Seq<char>),
}

impl View for PageRequest {
    type V = PageRequestView;

    open spec fn view(&self) -> PageRequestView {
        match self {
            PageRequest::First => PageRequestView::First,
            PageRequest::Offset(n) => PageRequestView::Offset(*n),
            PageRequest::After(token) => PageRequestView::After(token@),
        }
    }
}

/// The builds of one provider, as far as they have been read, and where
/// the reading stands.
#[derive(Debug)]
pub struct Directory<B> {
    vendor: Vendor,
    builds: NameMap<B>,
    token: Option<String>,
    exhausted: bool,
}

#[verifier::ext_equal]
pub struct DirectoryView<T> {
    pub vendor: Vendor,
    /// The builds read so far, by commit.
    pub builds: Map<Seq<char>, T>,
    /// How many builds have been read.
    pub count: nat,
    /// The page that the last page named, if it named one.
    pub token: Option<Seq<char>>,
    /// Whether the provider has no more pages.
    pub exhausted: bool,
}

/// What looking a commit up comes to.
#[derive(Debug, PartialEq, Eq)]
pub enum Lookup<'a, B> {
    /// The build of the commit.
    Found(&'a B),
    /// The commit is not among the builds read so far: this page is to
    /// be read next.
    Fetch(PageRequest),
    /// The provider has no more pages, and no build for the commit.
    NotFound,
}

/// The view of what a lookup comes to.
pub enum LookupView<T> {
    Found(T),
    Fetch(PageRequestView),
    NotFound,
}

/// `builds` with the builds of `page` put in, in order, up to the first
/// whose commit has a build already; and how many were put in.
pub open spec fn put_each<T>(builds: Map<Seq<char>, T>, page: Seq<(Seq<char>, T)>) -> (
    Map<Seq<char>, T>,
    nat,
)
    decreases page.len(),
{
    if page.len() == 0 {
        (builds, 0)
    } else {
        let (before, n) = put_each(builds, page.drop_last());
        if n < page.len() - 1 || before.contains_key(page.last().0) {
            (before, n)
        } else {
            (before.insert(page.last().0, page.last().1), n + 1)
        }
    }
}

/// Putting a page in adds builds only: every build that was there stays
/// as it was.
pub proof fn lemma_put_each_grows<T>(builds: Map<Seq<char>, T>, page: Seq<(Seq<char>, T)>)
    ensures
        forall|k: Seq<char>| #[trigger]
            builds.contains_key(k) ==> put_each(builds, page).0.contains_key(k) && put_each(
                builds,
                page,
            ).0[k] == builds[k],
    decreases page.len(),
{
    if page.len() > 0 {
        lemma_put_each_grows(builds, page.drop_last());
    }
}

/// Where all of a page was put in, every build of the page is held
/// under its commit.
pub proof fn lemma_put_each_holds<T>(builds: Map<Seq<char>, T>, page: Seq<(Seq<char>, T)>)
    requires
        put_each(builds, page).1 == page.len(),
    ensures
        forall|i: int|
            0 <= i < page.len() ==> put_each(builds, page).0.contains_key((#[trigger] page[i]).0)
                && put_each(builds, page).0[page[i].0] == page[i].1,
    decreases page.len(),
{
    if page.len() > 0 {
        let shorter = page.drop_last();
        lemma_put_each_count(builds, shorter);
        lemma_put_each_holds(builds, shorter);
        assert forall|i: int| 0 <= i < page.len() implies put_each(builds, page).0.contains_key(
            (#[trigger] page[i]).0,
        ) && put_each(builds, page).0[page[i].0] == page[i].1 by {
            if i < page.len() - 1 {
                assert(shorter[i] == page[i]);
            }
        }
    }
}

/// No more builds are put in than the page holds.
pub proof fn lemma_put_each_count<T>(builds: Map<Seq<char>, T>, page: Seq<(Seq<char>, T)>)
    ensures
        put_each(builds, page).1 <= page.len(),
    decreases page.len(),
{
    if page.len() > 0 {
        lemma_put_each_count(builds, page.drop_last());
    }
}

impl<T> DirectoryView<T> {
    /// The page to read next; `None` where the provider has no more.
    pub open spec fn next_request(self) -> Result<Option<PageRequestView>, DirectoryError> {
        if self.past_first_page() {
            Err(DirectoryError::ResumeUnsupported)
        } else if self.exhausted {
            Ok(None)
        } else {
            match self.vendor {
                Vendor::Travis => Ok(Some(PageRequestView::Offset(self.count as usize))),
                Vendor::AppVeyor => match self.token {
                    Some(token) => Ok(Some(PageRequestView::After(token))),
                    None => Ok(Some(PageRequestView::First)),
                },
                Vendor::Azure => Ok(Some(PageRequestView::First)),
            }
        }
    }

    /// Whether the provider is Azure and builds are held: its first
    /// page has been read then, and it gives no other.
    pub open spec fn past_first_page(self) -> bool {
        self.vendor == Vendor::Azure && self.count > 0
    }

    /// What looking `commit` up comes to.
    pub open spec fn lookup(self, commit: Seq<char>) -> Result<LookupView<T>, DirectoryError> {
        if self.builds.contains_key(commit) {
            Ok(LookupView::Found(self.builds[commit]))
        } else {
            match self.next_request() {
                Ok(Some(request)) => Ok(LookupView::Fetch(request)),
                Ok(None) => Ok(LookupView::NotFound),
                Err(e) => Err(e),
            }
        }
    }

    /// The directory after `page` was handed to it, which named `token`
    /// as the page after it; and the error, where the page was refused.
    ///
    /// Azure, once builds are held, takes no further page: the
    /// directory stays as it was. Of a page with a build for a commit
    /// that has one already, the builds before that one are taken. An
    /// empty page, and for AppVeyor a page that names no other, tells
    /// that the provider has no more.
    pub open spec fn absorb(self, page: Seq<(Seq<char>, T)>, token: Option<Seq<char>>) -> (
        DirectoryView<T>,
        Option<DirectoryError>,
    ) {
        let (builds, n) = put_each(self.builds, page);
        if self.past_first_page() {
            (self, Some(DirectoryError::ResumeUnsupported))
        } else if n == page.len() {
            (
                DirectoryView {
                    vendor: self.vendor,
                    builds,
                    count: self.count + n,
                    token,
                    exhausted: self.exhausted || page.len() == 0 || (self.vendor
                        == Vendor::AppVeyor && token is None),
                },
                None,
            )
        } else {
            (
                DirectoryView { builds, count: self.count + n, ..self },
                Some(DirectoryError::DuplicateBuild),
            )
        }
    }
}

/// After a page that was taken in whole, each commit of the page is
/// found, with its build.
pub proof fn lemma_found_after_absorb<T>(
    d: DirectoryView<T>,
    page: Seq<(Seq<char>, T)>,
    token: Option<Seq<char>>,
    i: int,
)
    requires
        d.absorb(page, token).1 is None,
        0 <= i < page.len(),
    ensures
        d.absorb(page, token).0.lookup(page[i].0) == Ok::<LookupView<T>, DirectoryError>(
            LookupView::Found(page[i].1),
        ),
{
    lemma_put_each_holds(d.builds, page);
}

/// After an empty page, a commit that has no build is not found, and no
/// further page is asked for.
pub proof fn lemma_empty_page_ends<T>(
    d: DirectoryView<T>,
    token: Option<Seq<char>>,
    commit: Seq<char>,
)
    requires
        !d.past_first_page(),
        !d.builds.contains_key(commit),
    ensures
        d.absorb(Seq::empty(), token).1 is None,
        d.absorb(Seq::empty(), token).0.lookup(commit) == Ok::<LookupView<T>, DirectoryError>(
            LookupView::NotFound,
        ),
{
}

/// Azure gives its first page only: once builds are held, looking up a
/// commit that is not among them is an error, whatever was handed to
/// the directory before, and every further page is refused and leaves
/// the directory as it was.
pub proof fn lemma_azure_first_page_only<T>(
    d: DirectoryView<T>,
    page: Seq<(Seq<char>, T)>,
    token: Option<Seq<char>>,
    commit: Seq<char>,
)
    requires
        d.vendor == Vendor::Azure,
        d.count > 0,
        !d.builds.contains_key(commit),
    ensures
        d.lookup(commit) == Err::<LookupView<T>, DirectoryError>(
            DirectoryError::ResumeUnsupported,
        ),
        d.absorb(page, token) == (d, Some(DirectoryError::ResumeUnsupported)),
{
}

/// The first page of Azure that brings builds is the last: after it, a
/// commit that it did not bring is not looked for any further.
pub proof fn lemma_azure_after_first_page<T>(
    d: DirectoryView<T>,
    page: Seq<(Seq<char>, T)>,
    token: Option<Seq<char>>,
    commit: Seq<char>,
)
    requires
        d.vendor == Vendor::Azure,
        d.absorb(page, token).1 is None,
        page.len() > 0,
        !d.absorb(page, token).0.builds.contains_key(commit),
    ensures
        d.absorb(page, token).0.lookup(commit) == Err::<LookupView<T>, DirectoryError>(
            DirectoryError::ResumeUnsupported,
        ),
{
}

/// A directory only grows: whatever page is taken in, and whether or
/// not it is refused, every build that was there stays as it was.
pub proof fn lemma_absorb_keeps<T>(
    d: DirectoryView<T>,
    page: Seq<(Seq<char>, T)>,
    token: Option<Seq<char>>,
    commit: Seq<char>,
)
    requires
        d.builds.contains_key(commit),
    ensures
        d.absorb(page, token).0.builds.contains_key(commit),
        d.absorb(page, token).0.builds[commit] == d.builds[commit],
{
    lemma_put_each_grows(d.builds, page);
}

/// The view of a page of builds.
pub open spec fn page_view<B: View>(page: Seq<(String, B)>) -> Seq<(Seq<char>, B::V)> {
    page.map_values(|p: (String, B)| (p.0@, p.1@))
}

impl<B: View> View for Directory<B> {
    type V = DirectoryView<B::V>;

    closed spec fn view(&self) -> DirectoryView<B::V> {
        DirectoryView {
            vendor: self.vendor,
            builds: self.builds@,
            count: self.builds.keys().len(),
            token: string_view(self.token),
            exhausted: self.exhausted,
        }
    }
}

impl<B: View> Directory<B> {
    /// The directory of a provider of which no page has been read.
    pub fn new(vendor: Vendor) -> (d: Self)
        ensures
            d@ == (DirectoryView::<B::V> {
                vendor,
                builds: Map::empty(),
                count: 0,
                token: None,
                exhausted: false,
            }),
    {
        let d = Directory { vendor, builds: NameMap::new(), token: None, exhausted: false };
        assert(d.builds@ =~= Map::empty());
        d
    }

    /// The page to read next; `None` where the provider has no more.
    pub fn next_request(&self) -> (r: Result<Option<PageRequest>, DirectoryError>)
        ensures
            match r {
                Ok(Some(request)) => self@.next_request() == Ok::<
                    Option<PageRequestView>,
                    DirectoryError,
                >(Some(request@)),
                Ok(None) => self@.next_request() == Ok::<Option<PageRequestView>, DirectoryError>(
                    None,
                ),
                Err(e) => self@.next_request() == Err::<Option<PageRequestView>, DirectoryError>(
                    e,
                ),
            },
    {
        if self.vendor == Vendor::Azure && self.builds.len() > 0 {
            return Err(DirectoryError::ResumeUnsupported);
        }
        if self.exhausted {
            return Ok(None);
        }
        match self.vendor {
            Vendor::Travis => Ok(Some(PageRequest::Offset(self.builds.len()))),
            Vendor::AppVeyor => match &self.token {
                Some(token) => Ok(Some(PageRequest::After(token.clone()))),
                None => Ok(Some(PageRequest::First)),
            },
            Vendor::Azure => Ok(Some(PageRequest::First)),
        }
    }

    /// Looks the build of `commit` up among the builds read so far, and
    /// says which page to read where it is not among them.
    pub fn lookup<'a>(&'a self, commit: &str) -> (r: Result<Lookup<'a, B>, DirectoryError>)
        ensures
            match r {
                Ok(Lookup::Found(build)) => self@.lookup(commit@) == Ok::<
                    LookupView<B::V>,
                    DirectoryError,
                >(LookupView::Found(build@)),
                Ok(Lookup::Fetch(request)) => self@.lookup(commit@) == Ok::<
                    LookupView<B::V>,
                    DirectoryError,
                >(LookupView::Fetch(request@)),
                Ok(Lookup::NotFound) => self@.lookup(commit@) == Ok::<
                    LookupView<B::V>,
                    DirectoryError,
                >(LookupView::NotFound),
                Err(e) => self@.lookup(commit@) == Err::<LookupView<B::V>, DirectoryError>(e),
            },
    {
        match self.builds.get(commit) {
            Some(build) => Ok(Lookup::Found(build)),
            None => match self.next_request() {
                Ok(Some(request)) => Ok(Lookup::Fetch(request)),
                Ok(None) => Ok(Lookup::NotFound),
                Err(e) => Err(e),
            },
        }
    }

    /// Takes in a page of builds, each with its commit, and the page
    /// that it names as the one after it.
    ///
    /// Azure, once builds are held, takes no further page: the page is
    /// refused with `ResumeUnsupported` and the directory stays as it
    /// was. A build for a commit that has one already is refused with
    /// `DuplicateBuild`: the builds before it in the page are kept, it
    /// and those after it are not, and no build is ever replaced.
    pub fn absorb(&mut self, page: Vec<(String, B)>, token: Option<String>) -> (r: Result<
        (),
        DirectoryError,
    >)
        ensures
            final(self)@ == old(self)@.absorb(page_view(page@), string_view(token)).0,
            r == (match old(self)@.absorb(page_view(page@), string_view(token)).1 {
                None => Ok::<(), DirectoryError>(()),
                Some(e) => Err::<(), DirectoryError>(e),
            }),
    {
        if self.vendor == Vendor::Azure && self.builds.len() > 0 {
            return Err(DirectoryError::ResumeUnsupported);
        }
        let ghost all = page_view(page@);
        let ghost start = self.builds@;
        let ghost count = self.builds.keys().len();
        let n = page.len();
        let mut put: usize = 0;
        let mut i: usize = 0;
        proof {
            assert(all.take(0) =~= Seq::<(Seq<char>, B::V)>::empty());
        }
        for item in it: page
            invariant
                i == it.index(),
                i <= n,
                n == all.len(),
                put <= i,
                forall|x: int| 0 <= x < n ==> (it.seq()[x].0@, it.seq()[x].1@) == #[trigger] all[x],
                it.seq().len() == n,
                (self.builds@, put as nat) == put_each(start, all.take(i as int)),
                self.builds.keys().len() == count + put,
                self.vendor == old(self).vendor,
                self.token == old(self).token,
                self.exhausted == old(self).exhausted,
                start == old(self).builds@,
                count == old(self).builds.keys().len(),
        {
            proof {
                assert(all.take(i + 1).drop_last() =~= all.take(i as int));
                assert(all.take(i + 1).last() == all[i as int]);
            }
            let (commit, build) = item;
            if put == i && self.builds.get(commit.as_str()).is_none() {
                self.builds.insert(commit, build);
                put = put + 1;
            }
            i = i + 1;
        }
        assert(all.take(i as int) =~= all);
        if put == n {
            self.exhausted = self.exhausted || n == 0 || (self.vendor == Vendor::AppVeyor
                && token.is_none());
            self.token = token;
            Ok(())
        } else {
            Err(DirectoryError::DuplicateBuild)
        }
    }
}

} // verus!
