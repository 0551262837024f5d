//! The page cache between the table and its data file.
//!
//! The pager holds the bytes of the data file and a fixed number of page
//! slots. A page comes into its slot on first use, from the file where the
//! file holds it, else as a page of zero bytes; it then stays there. The
//! file's bytes change only when a page is flushed.
use crate::btree::Page;
use crate::codec::{copy_into, overwrite, zeros};
use vstd::prelude::*;
use vstd::slice::slice_subrange;

verus! {

/// The size of a page, the unit of the data file and of the cache.
pub const PAGE_SIZE: usize = 4096;

/// How many pages a table can hold.
pub const TABLE_MAX_PAGE: usize = 100;

/// What can go wrong between the table and its storage.
#[derive(Debug, Clone, Copy, PartialEq, Eq)]
pub enum StorageFault {
    /// The data file is not a whole number of pages.
    CorruptFile,
    /// The root page of the data file cannot be read as a leaf.
    CorruptLeaf,
    /// A page number at or beyond `TABLE_MAX_PAGE`.
    PageOutOfBounds,
    /// A flush of a page that was never loaded.
    PageNotLoaded,
}

/// What a pager is: its slots, each empty or holding the bytes of a page,
/// the bytes of the data file, the length the file had when it was opened,
/// and the count of pages.
#[verifier::ext_equal]
pub struct PagerView {
    pub slots: Seq<Option<Seq<u8>>>,
    pub file: Seq<u8>,
    pub file_length: nat,
    pub num_pages: nat,
}

/// How many of the slots hold a page.
pub open spec fn resident_count(slots: Seq<Option<Seq<u8>>>) -> nat
    decreases slots.len(),
{
    if slots.len() == 0 {
        0
    } else {
        resident_count(slots.drop_last()) + if slots.last() is Some {
            1nat
        } else {
            0nat
        }
    }
}

/// The bytes of a file after page `page_num` was written to it: the file
/// grows by zero bytes where it was too short to hold the page.
pub open spec fn file_with_page(file: Seq<u8>, page_num: int, page: Seq<u8>) -> Seq<u8> {
    let end = (page_num + 1) * PAGE_SIZE;
    let base = if file.len() < end {
        file + zeros((end - file.len()) as nat)
    } else {
        file
    };
    overwrite(base, page_num * PAGE_SIZE, page)
}

impl PagerView {
    /// The pager's invariant.
    pub open spec fn wf(self) -> bool {
        &&& self.slots.len() == TABLE_MAX_PAGE
        &&& forall|i: int|
            0 <= i < self.slots.len() && self.slots[i] is Some ==> (#[trigger] self.slots[i])->0.len()
                == PAGE_SIZE
        &&& self.file.len() % (PAGE_SIZE as nat) == 0
        &&& self.file_length % (PAGE_SIZE as nat) == 0
        &&& self.file_length <= self.file.len()
        &&& self.file.len() <= usize::MAX
        &&& self.num_pages == self.file_length / (PAGE_SIZE as nat) + resident_count(self.slots)
    }

    /// Whether page `page_num` is in its slot.
    pub open spec fn resident(self, page_num: int) -> bool {
        0 <= page_num < self.slots.len() && self.slots[page_num] is Some
    }

    /// The bytes of page `page_num`: those in its slot; for a page not yet
    /// loaded, those in the file as it was opened; zero bytes beyond that.
    pub open spec fn page(self, page_num: int) -> Seq<u8> {
        if self.resident(page_num) {
            self.slots[page_num]->0
        } else if (page_num + 1) * PAGE_SIZE <= self.file_length {
            self.file.subrange(page_num * PAGE_SIZE, (page_num + 1) * PAGE_SIZE)
        } else {
            zeros(PAGE_SIZE as nat)
        }
    }

    /// The pager once page `page_num` is in its slot with the bytes `page`.
    pub open spec fn with_page(self, page_num: int, page: Seq<u8>) -> PagerView {
        PagerView {
            slots: self.slots.update(page_num, Some(page)),
            num_pages: if self.resident(page_num) {
                self.num_pages
            } else {
                self.num_pages + 1
            },
            ..self
        }
    }

    /// The pager once page `page_num`, which is in its slot, was written to
    /// the file.
    pub open spec fn flushed(self, page_num: int) -> PagerView {
        PagerView { file: file_with_page(self.file, page_num, self.slots[page_num]->0), ..self }
    }
}

/// The cache of pages over the bytes of one data file.
#[derive(Debug)]
pub struct Pager {
    pages: Vec<Option<Page>>,
    file: Vec<u8>,
    file_length: usize,
    num_pages: usize,
}

impl View for Pager {
    type V = PagerView;

    closed spec fn view(&self) -> PagerView {
        PagerView {
            slots: Seq::new(self.pages@.len(), |i: int| page_bytes(self.pages@[i])),
            file: self.file@,
            file_length: self.file_length as nat,
            num_pages: self.num_pages as nat,
        }
    }
}

/// The bytes in a slot.
pub open spec fn page_bytes(slot: Option<Page>) -> Option<Seq<u8>> {
    match slot {
        Some(page) => Some(page@),
        None => None,
    }
}

/// No slot holds a page.
pub proof fn lemma_resident_count_none(slots: Seq<Option<Seq<u8>>>)
    requires
        forall|i: int| 0 <= i < slots.len() ==> slots[i] is None,
    ensures
        resident_count(slots) == 0,
    decreases slots.len(),
{
    if slots.len() > 0 {
        lemma_resident_count_none(slots.drop_last());
    }
}

/// There are no more pages in slots than slots, and filling an empty slot
/// adds one.
pub proof fn lemma_resident_count_update(slots: Seq<Option<Seq<u8>>>, i: int, page: Seq<u8>)
    requires
        0 <= i < slots.len(),
    ensures
        resident_count(slots) <= slots.len(),
        resident_count(slots.update(i, Some(page))) == resident_count(slots) + if slots[i] is Some {
            0nat
        } else {
            1nat
        },
    decreases slots.len(),
{
    let after = slots.update(i, Some(page));
    if i == slots.len() - 1 {
        assert(after.drop_last() =~= slots.drop_last());
        lemma_resident_count_bound(slots.drop_last());
    } else {
        assert(after.drop_last() =~= slots.drop_last().update(i, Some(page)));
        lemma_resident_count_update(slots.drop_last(), i, page);
    }
}

/// There are no more pages in slots than slots.
pub proof fn lemma_resident_count_bound(slots: Seq<Option<Seq<u8>>>)
    ensures
        resident_count(slots) <= slots.len(),
    decreases slots.len(),
{
    if slots.len() > 0 {
        lemma_resident_count_bound(slots.drop_last());
    }
}

impl Pager {
    /// The pager's invariant.
    pub open spec fn wf(&self) -> bool {
        self@.wf()
    }

    /// Opens a pager over the bytes of a data file. The file must be a whole
    /// number of pages; no page is loaded yet.
    pub fn open(file: Vec<u8>) -> (r: Result<Pager, StorageFault>)
        ensures
            r is Ok <==> file@.len() % (PAGE_SIZE as nat) == 0,
            r matches Err(e) ==> e == StorageFault::CorruptFile,
            r matches Ok(pager) ==> {
                &&& pager.wf()
                &&& pager@ == (PagerView {
                    slots: Seq::new(TABLE_MAX_PAGE as nat, |i: int| None::<Seq<u8>>),
                    file: file@,
                    file_length: file@.len(),
                    num_pages: file@.len() / (PAGE_SIZE as nat),
                })
            },
    {
        let file_len: usize = file.len();
        if file_len % PAGE_SIZE != 0 {
            return Err(StorageFault::CorruptFile);
        }
        let mut pages: Vec<Option<Page>> = Vec::new();
        let mut i: usize = 0;
        while i < TABLE_MAX_PAGE
            invariant
                i <= TABLE_MAX_PAGE,
                pages.len() == i,
                forall|j: int| 0 <= j < i ==> pages[j] is None,
            decreases TABLE_MAX_PAGE - i,
        {
            pages.push(None);
            i += 1;
        }
        let pager = Pager { pages, file, file_length: file_len, num_pages: file_len / PAGE_SIZE };
        proof {
            lemma_resident_count_none(pager@.slots);
            assert(pager@.slots =~= Seq::new(TABLE_MAX_PAGE as nat, |i: int| None::<Seq<u8>>));
        }
        Ok(pager)
    }

    /// The page with number `page_num`, open for writing. On first use the
    /// page is loaded: from the file where the file held it when it was
    /// opened, else as a page of zero bytes. What the caller writes into the
    /// page stays in its slot.
    pub fn get_page(&mut self, page_num: usize) -> (r: Result<&mut Page, StorageFault>)
        requires
            old(self).wf(),
        ensures
            r is Ok <==> page_num < TABLE_MAX_PAGE,
            r matches Err(e) ==> e == StorageFault::PageOutOfBounds && final(self)@ == old(self)@,
            r matches Ok(page) ==> {
                &&& page@ == old(self)@.page(page_num as int)
                &&& page@.len() == PAGE_SIZE
                &&& final(self)@ == old(self)@.with_page(page_num as int, final(page)@)
                &&& final(page)@.len() == PAGE_SIZE ==> old(self)@.with_page(
                    page_num as int,
                    final(page)@,
                ).wf()
            },
    {
        if page_num >= TABLE_MAX_PAGE {
            return Err(StorageFault::PageOutOfBounds);
        }
        let ghost mut before = self@;
        if self.pages[page_num].is_none() {
            let mut new_page: Page = zero_page();
            let pages_in_file: usize = self.file_length / PAGE_SIZE;
            if page_num < pages_in_file {
                let start: usize = page_num * PAGE_SIZE;
                let from_file: &[u8] = slice_subrange(self.file.as_slice(), start, start + PAGE_SIZE);
                copy_into(new_page.as_mut_slice(), 0, from_file);
                assert(new_page@ =~= from_file@);
            }
            proof {
                lemma_resident_count_update(self@.slots, page_num as int, new_page@);
                assert(new_page@ == old(self)@.page(page_num as int));
            }
            self.pages[page_num] = Some(new_page);
            self.num_pages += 1;
            assert(self@.slots =~= old(self)@.slots.update(page_num as int, Some(new_page@)));
            proof {
                before = self@;
            }
        }
        let page: &mut Page = self.pages[page_num].as_mut().unwrap();
        proof {
            lemma_resident_count_update(before.slots, page_num as int, final(page)@);
            assert(before.slots.update(page_num as int, Some(final(page)@)) =~= old(self)@.slots.update(
                page_num as int,
                Some(final(page)@),
            ));
        }
        Ok(page)
    }

    /// Writes page `page_num` from its slot to the file, at the place of that
    /// page. A page that is not in its slot cannot be flushed.
    pub fn flush(&mut self, page_num: usize) -> (r: Result<(), StorageFault>)
        requires
            old(self).wf(),
        ensures
            r is Ok <==> old(self)@.resident(page_num as int),
            r matches Err(e) ==> e == StorageFault::PageNotLoaded && final(self)@ == old(self)@,
            r is Ok ==> final(self)@ == old(self)@.flushed(page_num as int),
            final(self).wf(),
    {
        if page_num >= TABLE_MAX_PAGE {
            return Err(StorageFault::PageNotLoaded);
        }
        match &self.pages[page_num] {
            None => Err(StorageFault::PageNotLoaded),
            Some(page) => {
                assert(self@.slots[page_num as int] == Some(page@));
                let end: usize = (page_num + 1) * PAGE_SIZE;
                grow_with_zeros(&mut self.file, end);
                copy_into(self.file.as_mut_slice(), page_num * PAGE_SIZE, page.as_slice());
                proof {
                    lemma_file_with_page(old(self)@.file, page_num as int, page@);
                }
                Ok(())
            },
        }
    }

    /// The count of pages: those that the file held when it was opened, and
    /// one more for each page loaded since.
    pub fn num_pages(&self) -> (n: usize)
        ensures
            n == self@.num_pages,
    {
        self.num_pages
    }

    /// Whether page `page_num` is in its slot.
    pub fn is_resident(&self, page_num: usize) -> (r: bool)
        ensures
            r == self@.resident(page_num as int),
    {
        page_num < self.pages.len() && self.pages[page_num].is_some()
    }

    /// The bytes of the data file, as the flushes so far have left them.
    pub fn file(&self) -> (file: &Vec<u8>)
        ensures
            file@ == self@.file,
    {
        &self.file
    }
}

/// Writing a page to a file that is a whole number of pages leaves a file
/// that is a whole number of pages.
pub proof fn lemma_file_with_page(file: Seq<u8>, page_num: int, page: Seq<u8>)
    requires
        file.len() % (PAGE_SIZE as nat) == 0,
        0 <= page_num,
        page.len() == PAGE_SIZE,
    ensures
        file_with_page(file, page_num, page).len() % (PAGE_SIZE as nat) == 0,
        file_with_page(file, page_num, page).len() >= file.len(),
        file_with_page(file, page_num, page).len() == if file.len() < (page_num + 1) * PAGE_SIZE {
            (page_num + 1) * PAGE_SIZE
        } else {
            file.len() as int
        },
{
    assert(((page_num + 1) * 4096) % 4096 == 0) by (nonlinear_arith);
}

/// Lengthens `file` with zero bytes until it holds `len` bytes; a file that
/// is long enough stays as it is.
pub fn grow_with_zeros(file: &mut Vec<u8>, len: usize)
    ensures
        final(file)@ == if old(file)@.len() < len {
            old(file)@ + zeros((len - old(file)@.len()) as nat)
        } else {
            old(file)@
        },
{
    assert(file@ =~= old(file)@ + zeros(0));
    while file.len() < len
        invariant
            old(file)@.len() <= file@.len(),
            old(file)@.len() < len ==> file@.len() <= len,
            old(file)@.len() >= len ==> file@.len() == old(file)@.len(),
            file@ == old(file)@ + zeros((file@.len() - old(file)@.len()) as nat),
        decreases len - file.len(),
    {
        file.push(0u8);
        assert(file@ =~= old(file)@ + zeros((file@.len() - old(file)@.len()) as nat));
    }
    assert(old(file)@ + zeros(0) =~= old(file)@);
}

/// A page of zero bytes.
pub fn zero_page() -> (page: Page)
    ensures
        page@ == zeros(PAGE_SIZE as nat),
{
    let mut page: Page = Vec::new();
    let mut i: usize = 0;
    while i < PAGE_SIZE
        invariant
            i <= PAGE_SIZE,
            page@ == zeros(i as nat),
        decreases PAGE_SIZE - i,
    {
        page.push(0u8);
        i += 1;
        assert(page@ =~= zeros(i as nat));
    }
    page
}

} // verus!
