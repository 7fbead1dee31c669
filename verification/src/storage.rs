//! The page store and registry around [`Page`]: one page per backing
//! file, loaded and rewritten whole.
//!
//! The store itself is pure: callers (the I/O layer) read the file's
//! current bytes and hand them in, and write the returned buffer back to
//! the start of the file.

use crate::format::{
    can_insert, encode_tuple, fresh_page, header_wf, insert_spec, page_wf, parse_page,
};
use crate::page::{fields_view, rows_view, DataField, Page, PageError};
use vstd::prelude::*;

verus! {

/// The fixed page capacity of the store, in bytes.
pub const PAGE_SIZE: usize = 8192;

/// An in-memory set of live pages, registered in construction order,
/// plus the pure half of the one-page-per-file store.
pub struct Storage {
    pages: Vec<Page>,
}

impl Storage {
    /// The pages registered so far, in registration order.
    pub closed spec fn pages_spec(&self) -> Seq<Page> {
        self.pages@
    }

    /// An empty registry.
    pub fn new() -> (s: Storage)
        ensures
            s.pages_spec() == Seq::<Page>::empty(),
    {
        Storage { pages: Vec::new() }
    }

    /// Registers a page, keeping all earlier ones.
    pub fn add_page(&mut self, page: Page)
        ensures
            final(self).pages_spec() == old(self).pages_spec().push(page),
    {
        self.pages.push(page);
    }

    /// The number of registered pages.
    pub fn page_count(&self) -> (n: usize)
        ensures
            n == self.pages_spec().len(),
    {
        self.pages.len()
    }

    /// Appends one tuple to the page held in `existing` — the current
    /// `PAGE_SIZE` bytes of the backing file, or `None` when the file is
    /// being created — and returns the full page buffer to write back at
    /// offset 0. Fails exactly as [`Page::write`] does, handing back no
    /// buffer, so a failed insert never reaches the file.
    pub fn insert_data(existing: Option<Vec<u8>>, data_fields: &Vec<DataField>) -> (r: Result<
        Vec<u8>,
        PageError,
    >)
        requires
            existing matches Some(b) ==> b@.len() == PAGE_SIZE,
        ensures
            ({
                let b0 = match existing {
                    Some(b) => b@,
                    None => fresh_page(PAGE_SIZE as int),
                };
                let l = encode_tuple(fields_view(data_fields@)).len() as int;
                match r {
                    Ok(out) => {
                        &&& can_insert(b0, l)
                        &&& out@ == insert_spec(b0, fields_view(data_fields@))
                        &&& page_wf(b0) ==> {
                            &&& page_wf(out@)
                            &&& parse_page(out@) == Some(
                                parse_page(b0).unwrap().push(fields_view(data_fields@)),
                            )
                        }
                    },
                    Err(e) => {
                        &&& !can_insert(b0, l)
                        &&& (e == PageError::CorruptPage <==> !header_wf(b0))
                        &&& (e == PageError::PageFull <==> header_wf(b0))
                        &&& existing is None ==> e == PageError::PageFull
                    },
                }
            }),
    {
        let mut page = Page::new(PAGE_SIZE, existing);
        match page.write(data_fields) {
            Ok(_) => Ok(page.into_buffer()),
            Err(e) => Err(e),
        }
    }

    /// Decodes every tuple from a page buffer read back from a backing
    /// file, in insertion order. Fails with `CorruptPage` exactly when
    /// the bytes are not a whole page of this store's size, or do not
    /// parse as one.
    pub fn read_data(bytes: Vec<u8>) -> (r: Result<Vec<Vec<DataField>>, PageError>)
        ensures
            match r {
                Ok(rows) => bytes@.len() == PAGE_SIZE && parse_page(bytes@) == Some(
                    rows_view(rows@),
                ),
                Err(e) => {
                    &&& bytes@.len() != PAGE_SIZE || parse_page(bytes@) is None
                    &&& e == PageError::CorruptPage
                },
            },
    {
        if bytes.len() != PAGE_SIZE {
            return Err(PageError::CorruptPage);
        }
        let page = Page::new(PAGE_SIZE, Some(bytes));
        page.read()
    }
}

} // verus!
