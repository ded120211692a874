//! The page cache: a fixed table of slots over the image of the database
//! file. A slot is filled on first use, from the file or as a fresh zero
//! page at the end; nothing is evicted.
use vstd::prelude::*;
use vstd::slice::slice_subrange;
use crate::layout::{PAGE_SIZE, TABLE_MAX_PAGES};
use crate::page::Page;

verus! {

/// Why a file image cannot be opened.
#[derive(PartialEq, Eq, Structural, Clone, Copy, Debug)]
pub enum OpenError {
    /// The length is not a whole number of pages.
    CorruptFile,
    /// The file holds more pages than the cache has slots, and opening
    /// reads every page to check it.
    TooManyPages,
    /// A page does not hold a well-formed node.
    CorruptNode,
}

/// A page of zero bytes.
pub open spec fn zero_page() -> Seq<u8> {
    Seq::new(PAGE_SIZE as nat, |i: int| 0u8)
}

/// The pages of a file image, in order.
pub open spec fn image_pages(file: Seq<u8>) -> Seq<Seq<u8>> {
    Seq::new(
        file.len() / (PAGE_SIZE as nat),
        |n: int| file.subrange(n * PAGE_SIZE, (n + 1) * PAGE_SIZE),
    )
}

proof fn lemma_page_in_image(len: nat, n: int)
    requires
        len % (PAGE_SIZE as nat) == 0,
        0 <= n < len / (PAGE_SIZE as nat),
    ensures
        0 <= n * PAGE_SIZE,
        (n + 1) * PAGE_SIZE <= len,
{
    let q = len / 4096;
    assert(len == q * 4096) by (nonlinear_arith)
        requires
            len % 4096 == 0,
            q == len / 4096,
    ;
    assert((n + 1) * 4096 <= q * 4096) by (nonlinear_arith)
        requires
            n + 1 <= q,
    ;
}

pub struct Pager {
    pages: Vec<Option<Page>>,
    num_pages: usize,
    file: Vec<u8>,
}

impl Pager {
    closed spec fn file_pages(&self) -> nat {
        self.file@.len() / (PAGE_SIZE as nat)
    }

    closed spec fn slot_view(&self, n: int) -> Seq<u8> {
        if 0 <= n < self.pages@.len() && self.pages@[n] is Some {
            self.pages@[n]->0@
        } else {
            self.file@.subrange(n * PAGE_SIZE, (n + 1) * PAGE_SIZE)
        }
    }

    /// The current content of each page of the file, in page order.
    pub closed spec fn view(&self) -> Seq<Seq<u8>> {
        Seq::new(self.num_pages as nat, |n: int| self.slot_view(n))
    }

    pub closed spec fn is_resident(&self, n: int) -> bool {
        0 <= n < self.pages@.len() && self.pages@[n] is Some
    }

    pub closed spec fn wf(&self) -> bool {
        &&& self.pages@.len() == TABLE_MAX_PAGES
        &&& self.file@.len() % (PAGE_SIZE as nat) == 0
        &&& self.file_pages() <= self.num_pages
        &&& forall|n: int|
            0 <= n < TABLE_MAX_PAGES && #[trigger] self.pages@[n] is Some ==> n < self.num_pages
                && self.pages@[n]->0.wf()
        &&& forall|n: int|
            self.file_pages() <= n < self.num_pages ==> n < TABLE_MAX_PAGES
                && #[trigger] self.pages@[n] is Some
    }

    proof fn lemma_set_keeps_wf(old_p: &Pager, new_p: &Pager, page_num: int)
        requires
            old_p.wf(),
            0 <= page_num < TABLE_MAX_PAGES,
            page_num < new_p.num_pages,
            new_p.file == old_p.file,
            old_p.num_pages <= new_p.num_pages <= old_p.num_pages + 1,
            new_p.num_pages == old_p.num_pages + 1 ==> page_num == old_p.num_pages,
            new_p.pages@.len() == old_p.pages@.len(),
            new_p.pages@[page_num] is Some,
            new_p.pages@[page_num]->0.wf(),
            forall|n: int| 0 <= n < TABLE_MAX_PAGES && n != page_num ==> new_p.pages@[n] == old_p.pages@[n],
        ensures
            new_p.wf(),
    {
        assert forall|n: int| new_p.file_pages() <= n < new_p.num_pages implies n < TABLE_MAX_PAGES
            && #[trigger] new_p.pages@[n] is Some by {
            if n != page_num {
                assert(old_p.pages@[n] is Some);
            }
        }
    }

    pub proof fn lemma_view_pages(&self)
        requires
            self.wf(),
        ensures
            forall|n: int| 0 <= n < self.view().len() ==> (#[trigger] self.view()[n]).len() == PAGE_SIZE,
    {
        assert forall|n: int| 0 <= n < self.view().len() implies (#[trigger] self.view()[n]).len()
            == PAGE_SIZE by {
            if !self.is_resident(n) {
                lemma_page_in_image(self.file@.len(), n);
            }
        }
    }

    /// A cache over the image of a file, with no page loaded yet; the file
    /// extends over `len / PAGE_SIZE` pages, of which only the first
    /// `TABLE_MAX_PAGES` can be loaded.
    pub fn new(file: Vec<u8>) -> (r: Result<Pager, OpenError>)
        ensures
            r matches Ok(p) ==> p.wf() && p.view() == image_pages(file@),
            r is Err ==> r == Err::<Pager, OpenError>(OpenError::CorruptFile),
            r is Ok == (file@.len() % (PAGE_SIZE as nat) == 0),
    {
        let len = file.len();
        if len % PAGE_SIZE != 0 {
            return Err(OpenError::CorruptFile);
        }
        let num_pages = len / PAGE_SIZE;
        let mut pages: Vec<Option<Page>> = Vec::new();
        let mut i: usize = 0;
        while i < TABLE_MAX_PAGES
            invariant
                i <= TABLE_MAX_PAGES,
                pages@.len() == i,
                forall|n: int| 0 <= n < i ==> #[trigger] pages@[n] is None,
            decreases TABLE_MAX_PAGES - i,
        {
            pages.push(None);
            i = i + 1;
        }
        let p = Pager { pages, num_pages, file };
        assert(p.view() =~= image_pages(p.file@));
        Ok(p)
    }

    pub fn num_pages(&self) -> (r: usize)
        requires
            self.wf(),
        ensures
            r == self.view().len(),
    {
        self.num_pages
    }

    /// The page number that the next new page gets: the end of the file.
    pub fn get_unused_page_num(&self) -> (r: usize)
        requires
            self.wf(),
        ensures
            r == self.view().len(),
    {
        self.num_pages
    }

    /// Loads page `page_num`, from the file if it lies within it, else as a
    /// new zero page at the end.
    pub fn get_page(&mut self, page_num: usize)
        requires
            old(self).wf(),
            page_num < TABLE_MAX_PAGES,
            page_num <= old(self).view().len(),
        ensures
            final(self).wf(),
            final(self).is_resident(page_num as int),
            forall|n: int| old(self).is_resident(n) ==> final(self).is_resident(n),
            page_num < old(self).view().len() ==> final(self).view() == old(self).view(),
            page_num == old(self).view().len() ==> final(self).view() == old(self).view().push(
                zero_page(),
            ),
    {
        if self.pages[page_num].is_none() {
            let ghost old_view = self.view();
            let file_pages = self.file.len() / PAGE_SIZE;
            let page = if page_num < file_pages {
                proof {
                    lemma_page_in_image(self.file@.len(), page_num as int);
                }
                Page::from_bytes(
                    slice_subrange(
                        self.file.as_slice(),
                        page_num * PAGE_SIZE,
                        (page_num + 1) * PAGE_SIZE,
                    ),
                )
            } else {
                let z = Page::new();
                assert(z@ =~= zero_page());
                z
            };
            let ghost before = *self;
            self.pages.set(page_num, Some(page));
            if page_num >= self.num_pages {
                self.num_pages = self.num_pages + 1;
                proof {
                    Self::lemma_set_keeps_wf(&before, self, page_num as int);
                }
                assert(self.view() =~= old_view.push(zero_page()));
            } else {
                proof {
                    Self::lemma_set_keeps_wf(&before, self, page_num as int);
                }
                assert(self.view() =~= old_view);
            }
        }
    }

    /// The resident page `page_num`, if it is loaded.
    pub fn get_page_view(&self, page_num: usize) -> (r: Option<&Page>)
        requires
            self.wf(),
            page_num < TABLE_MAX_PAGES,
        ensures
            r is Some == self.is_resident(page_num as int),
            r matches Some(p) ==> p@ == self.view()[page_num as int] && p.wf(),
    {
        match &self.pages[page_num] {
            Some(p) => Some(p),
            None => None,
        }
    }

    /// A copy of page `page_num`, loading it first.
    pub fn read_page(&mut self, page_num: usize) -> (r: Page)
        requires
            old(self).wf(),
            page_num < old(self).view().len(),
            page_num < TABLE_MAX_PAGES,
        ensures
            final(self).wf(),
            final(self).view() == old(self).view(),
            r@ == old(self).view()[page_num as int],
            r.wf(),
    {
        self.get_page(page_num);
        match &self.pages[page_num] {
            Some(p) => p.copy(),
            None => {
                proof {
                    assert(false);
                }
                Page::new()
            },
        }
    }

    /// Replaces the content of page `page_num`.
    pub fn write_page(&mut self, page_num: usize, page: Page)
        requires
            old(self).wf(),
            page_num < old(self).view().len(),
            page_num < TABLE_MAX_PAGES,
            page.wf(),
        ensures
            final(self).wf(),
            final(self).view() == old(self).view().update(page_num as int, page@),
    {
        let ghost old_view = self.view();
        let ghost before = *self;
        self.pages.set(page_num, Some(page));
        proof {
            Self::lemma_set_keeps_wf(&before, self, page_num as int);
        }
        assert(self.view() =~= old_view.update(page_num as int, page@));
    }

    /// Adds a zero page at the end of the file and returns its number.
    pub fn allocate_page(&mut self) -> (r: usize)
        requires
            old(self).wf(),
            old(self).view().len() < TABLE_MAX_PAGES,
        ensures
            final(self).wf(),
            r == old(self).view().len(),
            final(self).view() == old(self).view().push(zero_page()),
    {
        let n = self.num_pages;
        self.get_page(n);
        n
    }

    /// The bytes that flushing page `page_num` writes at its offset: the
    /// page if it is resident, else nothing.
    pub fn pager_flush(&self, page_num: usize) -> (r: Option<Vec<u8>>)
        requires
            self.wf(),
            page_num < TABLE_MAX_PAGES,
        ensures
            r is Some == self.is_resident(page_num as int),
            r matches Some(b) ==> b@ == self.view()[page_num as int],
    {
        match &self.pages[page_num] {
            Some(p) => Some(p.to_bytes()),
            None => None,
        }
    }
}

} // verus!
