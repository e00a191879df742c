//! Platform-neutral printing vocabulary shared by the frontend and backend.
//!
//! These types deliberately avoid Win32 spellings so a CUPS backend can
//! implement the same surface later without changing the UI.

use vstd::prelude::*;
use vstd::string::StringExecFns;

verus! {

pub struct PrinterInfo {
    pub name: String,
    pub driver: String,
    pub port: String,
    pub is_default: bool,
    /// Human-readable status ("Ready", "Offline", "Paused", ...).
    pub status: String,
    pub location: String,
    pub comment: String,
    /// Jobs currently queued on the device.
    pub jobs_queued: u32,
}

/// An input tray. `id` is the driver's own bin identifier and must be passed
/// back verbatim to select it.
pub struct PaperSource {
    pub id: i16,
    pub name: String,
}

#[derive(Clone, Copy, Debug, PartialEq, Eq, Structural)]
pub struct Resolution {
    pub x_dpi: i32,
    pub y_dpi: i32,
}

#[derive(Clone, Copy, Debug, PartialEq, Eq, Structural)]
pub enum DuplexMode {
    /// One-sided.
    Simplex,
    /// Two-sided, flipping on the long edge (the usual "book" binding).
    LongEdge,
    /// Two-sided, flipping on the short edge ("tablet" / calendar binding).
    ShortEdge,
}

#[derive(Clone, Copy, Debug, PartialEq, Eq, Structural)]
pub enum ColorMode {
    Color,
    Monochrome,
}

#[derive(Clone, Copy, Debug, PartialEq, Eq, Structural)]
pub enum Orientation {
    /// Match each page's own aspect ratio.
    Auto,
    Portrait,
    Landscape,
}

#[derive(Clone, Copy, Debug, PartialEq, Eq, Structural)]
pub enum PageScaling {
    /// Print at true size; oversized pages are clipped.
    ActualSize,
    /// Scale each page up or down to fill the printable area.
    FitToPage,
    /// Scale down only when the page exceeds the printable area.
    ShrinkOversized,
}

/// A driver's current defaults, suitable for seeding the print dialog.
#[derive(Clone, Copy, Debug, PartialEq, Eq, Structural)]
pub struct PrinterDefaults {
    pub duplex: DuplexMode,
    pub color: ColorMode,
    pub paper_source_id: Option<i16>,
    pub paper_size_id: Option<i16>,
    pub orientation: Orientation,
    pub copies: i32,
    pub collate: bool,
}

impl Default for PrinterDefaults {
    fn default() -> (r: Self)
        ensures
            r == (PrinterDefaults {
                duplex: DuplexMode::Simplex,
                color: ColorMode::Color,
                paper_source_id: None,
                paper_size_id: None,
                orientation: Orientation::Auto,
                copies: 1,
                collate: true,
            }),
    {
        PrinterDefaults {
            duplex: DuplexMode::Simplex,
            color: ColorMode::Color,
            paper_source_id: None,
            paper_size_id: None,
            orientation: Orientation::Auto,
            copies: 1,
            collate: true,
        }
    }
}

/// What to print and how. The raster resolution, a number with a fraction, is
/// the caller's business and not carried here.
pub struct PrintSettings {
    pub printer_name: String,
    /// 0-based page indices, in the order they should print.
    /// `None` prints every page in document order.
    pub pages: Option<Vec<usize>>,
    pub copies: i32,
    pub collate: bool,
    pub duplex: DuplexMode,
    pub color: ColorMode,
    pub paper_source_id: Option<i16>,
    pub paper_size_id: Option<i16>,
    pub orientation: Orientation,
    pub scaling: PageScaling,
    pub reverse_order: bool,
    /// Name shown in the Windows print queue.
    pub job_name: String,
}

/// The copies a job asks for when it does not say.
pub fn one() -> (r: i32)
    ensures
        r == 1,
{
    1
}

/// Jobs collate unless they say otherwise.
pub fn yes() -> (r: bool)
    ensures
        r,
{
    true
}

/// The print-queue name a job gets when it does not say.
pub fn default_job_name() -> (r: String)
    ensures
        r@ == "NXTPDF Document"@,
{
    String::from_str("NXTPDF Document")
}

/// The message for a selected page that does not exist; pages are numbered
/// from 1 in it.
pub open spec fn missing_page_message(bad: usize, page_count: usize) -> Seq<char> {
    "Page "@ + crate::decimal::decimal(
        if bad == usize::MAX {
            0nat
        } else {
            (bad + 1) as nat
        },
    ) + " does not exist (document has "@
        + crate::decimal::decimal(page_count as nat) + ")."@
}

/// The first index in `pages`, in order, that names no page.
pub open spec fn first_missing(pages: Seq<usize>, page_count: usize) -> Option<usize>
    decreases pages.len(),
{
    if pages.len() == 0 {
        None
    } else if pages[0] >= page_count {
        Some(pages[0])
    } else {
        first_missing(pages.subrange(1, pages.len() as int), page_count)
    }
}

/// The pages a job prints, in printing order.
pub open spec fn resolved_pages(
    selection: Option<Seq<usize>>,
    reverse_order: bool,
    page_count: usize,
) -> Result<Seq<usize>, Seq<char>> {
    match selection {
        Some(list) => if list.len() == 0 {
            Err("No pages selected to print."@)
        } else {
            match first_missing(list, page_count) {
                Some(bad) => Err(missing_page_message(bad, page_count)),
                None => Ok(
                    if reverse_order {
                        list.reverse()
                    } else {
                        list
                    },
                ),
            }
        },
        None => {
            let all = Seq::new(page_count as nat, |i: int| i as usize);
            Ok(
                if reverse_order {
                    all.reverse()
                } else {
                    all
                },
            )
        },
    }
}

impl PrintSettings {
    pub open spec fn selection(&self) -> Option<Seq<usize>> {
        match self.pages {
            Some(list) => Some(list@),
            None => None,
        }
    }

    /// Resolves the page list against a document of `page_count` pages.
    pub fn resolve_pages(&self, page_count: usize) -> (r: Result<Vec<usize>, String>)
        ensures
            match resolved_pages(self.selection(), self.reverse_order, page_count) {
                Ok(pages) => r matches Ok(list) && list@ == pages,
                Err(message) => r matches Err(text) && text@ == message,
            },
    {
        let mut pages: Vec<usize> = match &self.pages {
            Some(list) => {
                if list.len() == 0 {
                    return Err(String::from_str("No pages selected to print."));
                }
                let mut k: usize = 0;
                assert(list@.subrange(0, list@.len() as int) =~= list@);
                while k < list.len()
                    invariant
                        k <= list@.len(),
                        list@.len() > 0,
                        self.selection() == Some(list@),
                        first_missing(list@, page_count) == first_missing(
                            list@.subrange(k as int, list@.len() as int),
                            page_count,
                        ),
                    decreases list@.len() - k,
                {
                    let ghost rest = list@.subrange(k as int, list@.len() as int);
                    assert(rest.subrange(1, rest.len() as int) =~= list@.subrange(k + 1, list@.len() as int));
                    if list[k] >= page_count {
                        let bad = list[k];
                        let mut message = String::from_str("Page ");
                        message.append(crate::decimal::decimal_text(bad.wrapping_add(1) as u64).as_str());
                        message.append(" does not exist (document has ");
                        message.append(crate::decimal::decimal_text(page_count as u64).as_str());
                        message.append(").");
                        return Err(message);
                    }
                    k = k + 1;
                }
                let mut copy: Vec<usize> = Vec::new();
                let mut k: usize = 0;
                while k < list.len()
                    invariant
                        k <= list@.len(),
                        copy@ == list@.subrange(0, k as int),
                    decreases list@.len() - k,
                {
                    copy.push(list[k]);
                    k = k + 1;
                    assert(copy@ =~= list@.subrange(0, k as int));
                }
                assert(list@.subrange(0, list@.len() as int) =~= list@);
                copy
            },
            None => {
                let mut all: Vec<usize> = Vec::new();
                let mut i: usize = 0;
                while i < page_count
                    invariant
                        i <= page_count,
                        all@ == Seq::new(i as nat, |j: int| j as usize),
                    decreases page_count - i,
                {
                    all.push(i);
                    i = i + 1;
                    assert(all@ =~= Seq::new(i as nat, |j: int| j as usize));
                }
                all
            },
        };
        if self.reverse_order {
            let ghost forward = pages@;
            let n = pages.len();
            let mut reversed: Vec<usize> = Vec::new();
            let mut k: usize = n;
            while k > 0
                invariant
                    k <= n,
                    n == forward.len(),
                    pages@ == forward,
                    reversed@ == forward.reverse().subrange(0, (n - k) as int),
                decreases k,
            {
                k = k - 1;
                reversed.push(pages[k]);
                assert(reversed@ =~= forward.reverse().subrange(0, (n - k) as int));
            }
            assert(forward.reverse().subrange(0, n as int) =~= forward.reverse());
            pages = reversed;
        }
        Ok(pages)
    }
}

} // verus!
