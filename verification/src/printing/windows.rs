//! The computations of the Windows printing backend: printer status text,
//! NUL-terminated UTF-16 buffers, the pixel order GDI expects, and the job
//! settings a driver's `DEVMODEW` is given and what it made of them.

use vstd::prelude::*;
use vstd::string::StringExecFns;

use crate::decimal::{decimal, decimal_text, signed_decimal, signed_decimal_text};
use crate::printing::types::{
    ColorMode, DuplexMode, Orientation, PaperSource, PrintSettings, PrinterDefaults, Resolution,
};
use crate::pdf::unicode::{decode_utf16_lossy, from_utf16_lossy};

verus! {

/// The status bits a printer reports, most urgent first, with their labels.
pub open spec fn status_flag(i: int) -> (u32, Seq<char>) {
    if i == 0 {
        (0x0000_0080, "Offline"@)
    } else if i == 1 {
        (0x0000_0002, "Error"@)
    } else if i == 2 {
        (0x0000_0008, "Paper jam"@)
    } else if i == 3 {
        (0x0000_0010, "Out of paper"@)
    } else if i == 4 {
        (0x0040_0000, "Door open"@)
    } else if i == 5 {
        (0x0004_0000, "Out of toner"@)
    } else if i == 6 {
        (0x0010_0000, "Needs attention"@)
    } else if i == 7 {
        (0x0000_1000, "Not available"@)
    } else if i == 8 {
        (0x0000_0001, "Paused"@)
    } else if i == 9 {
        (0x0000_0800, "Output bin full"@)
    } else if i == 10 {
        (0x0002_0000, "Toner low"@)
    } else if i == 11 {
        (0x0000_0400, "Printing"@)
    } else if i == 12 {
        (0x0000_0200, "Busy"@)
    } else {
        (0x0001_0000, "Warming up"@)
    }
}

/// How many status bits [`status_flag`] lists.
pub const STATUS_FLAGS: usize = 14;

/// The label of the first listed bit, from position `i` on, that `status` has.
pub open spec fn first_status(status: u32, i: int) -> Option<Seq<char>>
    decreases STATUS_FLAGS - i,
{
    if i < 0 || i >= STATUS_FLAGS {
        None
    } else if status & status_flag(i).0 != 0 {
        Some(status_flag(i).1)
    } else {
        first_status(status, i + 1)
    }
}

/// What a printer's state reads as: its most urgent status bit, else the jobs
/// waiting, else ready.
pub open spec fn status_text(status: u32, jobs: u32) -> Seq<char> {
    match first_status(status, 0) {
        Some(label) => label,
        None => if jobs > 0 {
            decimal(jobs as nat) + " job(s) queued"@
        } else {
            "Ready"@
        },
    }
}

fn flag(i: usize) -> (r: (u32, &'static str))
    requires
        i < STATUS_FLAGS,
    ensures
        r.0 == status_flag(i as int).0,
        r.1@ == status_flag(i as int).1,
{
    if i == 0 {
        (0x0000_0080, "Offline")
    } else if i == 1 {
        (0x0000_0002, "Error")
    } else if i == 2 {
        (0x0000_0008, "Paper jam")
    } else if i == 3 {
        (0x0000_0010, "Out of paper")
    } else if i == 4 {
        (0x0040_0000, "Door open")
    } else if i == 5 {
        (0x0004_0000, "Out of toner")
    } else if i == 6 {
        (0x0010_0000, "Needs attention")
    } else if i == 7 {
        (0x0000_1000, "Not available")
    } else if i == 8 {
        (0x0000_0001, "Paused")
    } else if i == 9 {
        (0x0000_0800, "Output bin full")
    } else if i == 10 {
        (0x0002_0000, "Toner low")
    } else if i == 11 {
        (0x0000_0400, "Printing")
    } else if i == 12 {
        (0x0000_0200, "Busy")
    } else {
        (0x0001_0000, "Warming up")
    }
}

/// Describes a printer's state for a person, by how much they need to know.
pub fn decode_status(status: u32, jobs: u32) -> (r: String)
    ensures
        r@ == status_text(status, jobs),
{
    let mut i: usize = 0;
    while i < STATUS_FLAGS
        invariant
            i <= STATUS_FLAGS,
            first_status(status, 0) == first_status(status, i as int),
        decreases STATUS_FLAGS - i,
    {
        let (bit, label) = flag(i);
        if status & bit != 0 {
            return String::from_str(label);
        }
        i = i + 1;
    }
    if jobs > 0 {
        let mut text = decimal_text(jobs as u64);
        text.append(" job(s) queued");
        text
    } else {
        String::from_str("Ready")
    }
}

/// The units before the first NUL, or all of them.
pub open spec fn before_nul(buffer: Seq<u16>) -> Seq<u16>
    decreases buffer.len(),
{
    if buffer.len() == 0 {
        buffer
    } else if buffer[0] == 0 {
        Seq::empty()
    } else {
        seq![buffer[0]] + before_nul(buffer.subrange(1, buffer.len() as int))
    }
}

/// Reads a NUL-terminated string out of a fixed-size wide buffer, replacing
/// what is not valid UTF-16.
pub fn from_wide(buffer: &[u16]) -> (r: String)
    ensures
        r@ == decode_utf16_lossy(before_nul(buffer@)),
{
    let mut units: Vec<u16> = Vec::new();
    let mut k: usize = 0;
    assert(buffer@.subrange(0, buffer@.len() as int) =~= buffer@);
    while k < buffer.len() && buffer[k] != 0
        invariant
            k <= buffer@.len(),
            before_nul(buffer@) == units@ + before_nul(buffer@.subrange(k as int, buffer@.len() as int)),
        decreases buffer@.len() - k,
    {
        let ghost rest = buffer@.subrange(k as int, buffer@.len() as int);
        assert(rest.subrange(1, rest.len() as int) =~= buffer@.subrange(k + 1, buffer@.len() as int));
        let ghost before = units@;
        units.push(buffer[k]);
        assert(before + (seq![buffer@[k as int]] + before_nul(buffer@.subrange(k + 1, buffer@.len() as int)))
            =~= units@ + before_nul(buffer@.subrange(k + 1, buffer@.len() as int)));
        k = k + 1;
    }
    assert(before_nul(buffer@.subrange(k as int, buffer@.len() as int)) =~= Seq::<u16>::empty());
    assert(units@ + Seq::<u16>::empty() =~= units@);
    from_utf16_lossy(&units)
}

/// The names in a buffer of fixed-width, NUL-padded slots, `width` units each;
/// a shorter last slot counts too.
pub open spec fn slot_names(buffer: Seq<u16>, width: nat) -> Seq<Seq<char>>
    decreases buffer.len(),
{
    if buffer.len() == 0 || width == 0 {
        Seq::empty()
    } else if buffer.len() <= width {
        seq![decode_utf16_lossy(before_nul(buffer))]
    } else {
        seq![decode_utf16_lossy(before_nul(buffer.subrange(0, width as int)))] + slot_names(
            buffer.subrange(width as int, buffer.len() as int),
            width,
        )
    }
}

/// Splits a buffer of fixed-width name slots, as the driver fills them.
pub fn split_names(buffer: &[u16], width: usize) -> (r: Vec<String>)
    requires
        width > 0,
    ensures
        r@.map_values(|s: String| s@) == slot_names(buffer@, width as nat),
{
    let mut out: Vec<String> = Vec::new();
    let mut start: usize = 0;
    assert(buffer@.subrange(0, buffer@.len() as int) =~= buffer@);
    while start < buffer.len()
        invariant
            start <= buffer@.len(),
            width > 0,
            slot_names(buffer@, width as nat) == out@.map_values(|s: String| s@) + slot_names(
                buffer@.subrange(start as int, buffer@.len() as int),
                width as nat,
            ),
        decreases buffer@.len() - start,
    {
        let ghost rest = buffer@.subrange(start as int, buffer@.len() as int);
        let stop = if buffer.len() - start <= width {
            buffer.len()
        } else {
            start + width
        };
        let mut slot: Vec<u16> = Vec::new();
        let mut k: usize = start;
        while k < stop
            invariant
                start <= k <= stop,
                stop <= buffer@.len(),
                slot@ == buffer@.subrange(start as int, k as int),
            decreases stop - k,
        {
            slot.push(buffer[k]);
            k = k + 1;
            assert(slot@ =~= buffer@.subrange(start as int, k as int));
        }
        let name = from_wide(slot.as_slice());
        let ghost before = out@.map_values(|s: String| s@);
        out.push(name);
        assert(out@.map_values(|s: String| s@) =~= before.push(name@));
        if stop == buffer.len() {
            assert(rest =~= buffer@.subrange(start as int, stop as int));
            assert(buffer@.subrange(stop as int, buffer@.len() as int) =~= Seq::<u16>::empty());
        } else {
            assert(rest.subrange(0, width as int) =~= buffer@.subrange(start as int, stop as int));
            assert(rest.subrange(width as int, rest.len() as int) =~= buffer@.subrange(stop as int, buffer@.len() as int));
        }
        assert(before + (seq![name@] + slot_names(buffer@.subrange(stop as int, buffer@.len() as int), width as nat))
            =~= out@.map_values(|s: String| s@) + slot_names(buffer@.subrange(stop as int, buffer@.len() as int), width as nat));
        start = stop;
    }
    assert(slot_names(buffer@.subrange(start as int, buffer@.len() as int), width as nat) =~= Seq::<Seq<char>>::empty());
    assert(out@.map_values(|s: String| s@) + Seq::<Seq<char>>::empty() =~= out@.map_values(|s: String| s@));
    out
}

/// `rgba` with the first and third byte of every whole four-byte pixel
/// swapped; a trailing partial pixel is left alone.
pub open spec fn swapped_channels(rgba: Seq<u8>) -> Seq<u8> {
    Seq::new(
        rgba.len(),
        |i: int|
            if i < rgba.len() - rgba.len() % 4 && i % 4 == 0 {
                rgba[i + 2]
            } else if i < rgba.len() - rgba.len() % 4 && i % 4 == 2 {
                rgba[i - 2]
            } else {
                rgba[i]
            },
    )
}

/// GDI wants BGRA; PDFium renders RGBA.
pub fn rgba_to_bgra(rgba: &mut [u8])
    ensures
        final(rgba)@ == swapped_channels(old(rgba)@),
{
    let ghost original = rgba@;
    let n = rgba.len();
    let whole = n - n % 4;
    let mut at: usize = 0;
    while at < whole
        invariant
            whole == original.len() - original.len() % 4,
            n == original.len(),
            rgba@.len() == n,
            at <= whole,
            at % 4 == 0,
            forall|i: int| 0 <= i < at ==> rgba@[i] == swapped_channels(original)[i],
            forall|i: int| at <= i < n ==> rgba@[i] == original[i],
        decreases whole - at,
    {
        let red = rgba[at];
        let blue = rgba[at + 2];
        rgba[at] = blue;
        rgba[at + 2] = red;
        at = at + 4;
    }
    assert(rgba@ =~= swapped_channels(original));
}

/// `DEVMODEW.dmFields` bits: which members the driver is to read.
pub const DM_ORIENTATION: u32 = 0x0000_0001;
pub const DM_PAPERSIZE: u32 = 0x0000_0002;
pub const DM_COPIES: u32 = 0x0000_0100;
pub const DM_DEFAULTSOURCE: u32 = 0x0000_0200;
pub const DM_COLOR: u32 = 0x0000_0800;
pub const DM_DUPLEX: u32 = 0x0000_1000;
pub const DM_COLLATE: u32 = 0x0000_8000;

/// `dmDuplex` values.
pub const DMDUP_SIMPLEX: i16 = 1;
pub const DMDUP_VERTICAL: i16 = 2;
pub const DMDUP_HORIZONTAL: i16 = 3;

/// `dmColor` values.
pub const DMCOLOR_MONOCHROME: i16 = 1;
pub const DMCOLOR_COLOR: i16 = 2;

/// `dmCollate` values.
pub const DMCOLLATE_FALSE: i16 = 0;
pub const DMCOLLATE_TRUE: i16 = 1;

/// `dmOrientation` values.
pub const DMORIENT_PORTRAIT: i16 = 1;
pub const DMORIENT_LANDSCAPE: i16 = 2;

/// The members of a driver's `DEVMODEW` that print settings touch.
pub struct DevModeFields {
    /// `dmFields`: which members the driver is to read.
    pub fields: u32,
    pub duplex: i16,
    pub color: i16,
    pub collate: i16,
    pub copies: i16,
    /// The tray (`dmDefaultSource`).
    pub default_source: i16,
    pub paper_size: i16,
    pub orientation: i16,
}

/// The `dmDuplex` value for a duplex mode: long-edge flipping is vertical.
pub open spec fn duplex_code(mode: DuplexMode) -> i16 {
    match mode {
        DuplexMode::Simplex => DMDUP_SIMPLEX,
        DuplexMode::LongEdge => DMDUP_VERTICAL,
        DuplexMode::ShortEdge => DMDUP_HORIZONTAL,
    }
}

/// The `dmColor` value for a colour mode.
pub open spec fn color_code(mode: ColorMode) -> i16 {
    match mode {
        ColorMode::Color => DMCOLOR_COLOR,
        ColorMode::Monochrome => DMCOLOR_MONOCHROME,
    }
}

/// The `dmOrientation` value: as asked, or for `Auto` the page's own shape.
pub open spec fn orientation_code(orientation: Orientation, landscape: bool) -> i16 {
    match orientation {
        Orientation::Portrait => DMORIENT_PORTRAIT,
        Orientation::Landscape => DMORIENT_LANDSCAPE,
        Orientation::Auto => if landscape {
            DMORIENT_LANDSCAPE
        } else {
            DMORIENT_PORTRAIT
        },
    }
}

/// The copies a driver is asked for: at least one, at most what `dmCopies`
/// can hold.
pub open spec fn copies_code(copies: i32) -> i16 {
    if copies < 1 {
        1
    } else if copies > 0x7fff {
        0x7fff
    } else {
        copies as i16
    }
}

/// `dmFields` once settings are applied: duplex, colour, collation, copies
/// and orientation always, tray and paper size when the settings name them.
pub open spec fn applied_fields(fields: u32, settings: PrintSettings) -> u32 {
    let always = fields | DM_DUPLEX | DM_COLOR | DM_COLLATE | DM_COPIES;
    let tray = if settings.paper_source_id is Some {
        always | DM_DEFAULTSOURCE
    } else {
        always
    };
    let paper = if settings.paper_size_id is Some {
        tray | DM_PAPERSIZE
    } else {
        tray
    };
    paper | DM_ORIENTATION
}

/// The members once `settings` are written in: every one the settings speak
/// of takes their value, and is marked in `dmFields`; tray and paper size stay
/// the driver's own when the settings leave them open.
pub open spec fn applied(mode: DevModeFields, settings: PrintSettings, landscape: bool) -> DevModeFields {
    DevModeFields {
        fields: applied_fields(mode.fields, settings),
        duplex: duplex_code(settings.duplex),
        color: color_code(settings.color),
        collate: if settings.collate { DMCOLLATE_TRUE } else { DMCOLLATE_FALSE },
        copies: copies_code(settings.copies),
        default_source: match settings.paper_source_id {
            Some(source) => source,
            None => mode.default_source,
        },
        paper_size: match settings.paper_size_id {
            Some(size) => size,
            None => mode.paper_size,
        },
        orientation: orientation_code(settings.orientation, landscape),
    }
}

/// A driver that keeps every setting it was given reports nothing: applying
/// settings and then comparing against them raises no warning.
pub proof fn law_applied_settings_raise_no_warnings(mode: DevModeFields, settings: PrintSettings, landscape: bool)
    ensures
        override_warnings(applied(mode, settings, landscape), settings) == Seq::<Seq<char>>::empty(),
{
    assert(override_warnings(applied(mode, settings, landscape), settings) =~= Seq::<Seq<char>>::empty());
}

/// What a driver is asked for once settings are applied: each duplex mode
/// goes out as its own `dmDuplex` code of the Win32 `DEVMODEW` documentation
/// (one-sided 1, long-edge flipping 2, short-edge flipping 3), each colour mode
/// as its own `dmColor` code (monochrome 1, colour 2), collation as 1 or 0 and
/// an explicit orientation as its `dmOrientation` code (portrait 1, landscape
/// 2); reading the driver's settings back as dialog defaults then gives the
/// same duplex mode, colour mode, collation, orientation, tray and paper size
/// that were applied, and the copies asked for, held between 1 and 32767.
pub proof fn law_applied_settings_read_back(mode: DevModeFields, settings: PrintSettings, landscape: bool)
    ensures
        applied(mode, settings, landscape).duplex == match settings.duplex {
            DuplexMode::Simplex => 1i16,
            DuplexMode::LongEdge => 2i16,
            DuplexMode::ShortEdge => 3i16,
        },
        applied(mode, settings, landscape).color == match settings.color {
            ColorMode::Monochrome => 1i16,
            ColorMode::Color => 2i16,
        },
        applied(mode, settings, landscape).collate == if settings.collate { 1i16 } else { 0i16 },
        settings.orientation == Orientation::Portrait ==> applied(mode, settings, landscape).orientation == 1i16,
        settings.orientation == Orientation::Landscape ==> applied(mode, settings, landscape).orientation == 2i16,
        defaults_of(applied(mode, settings, landscape)).duplex == settings.duplex,
        defaults_of(applied(mode, settings, landscape)).color == settings.color,
        defaults_of(applied(mode, settings, landscape)).collate == settings.collate,
        defaults_of(applied(mode, settings, landscape)).orientation == match settings.orientation {
            Orientation::Auto => if landscape { Orientation::Landscape } else { Orientation::Portrait },
            other => other,
        },
        settings.paper_source_id is Some ==> defaults_of(applied(mode, settings, landscape)).paper_source_id
            == settings.paper_source_id,
        settings.paper_size_id is Some ==> defaults_of(applied(mode, settings, landscape)).paper_size_id
            == settings.paper_size_id,
        defaults_of(applied(mode, settings, landscape)).copies == if settings.copies < 1 {
            1
        } else if settings.copies > 32767 {
            32767
        } else {
            settings.copies
        },
{
}

fn duplex_value(mode: DuplexMode) -> (r: i16)
    ensures
        r == duplex_code(mode),
{
    match mode {
        DuplexMode::Simplex => DMDUP_SIMPLEX,
        DuplexMode::LongEdge => DMDUP_VERTICAL,
        DuplexMode::ShortEdge => DMDUP_HORIZONTAL,
    }
}

fn color_value(mode: ColorMode) -> (r: i16)
    ensures
        r == color_code(mode),
{
    match mode {
        ColorMode::Color => DMCOLOR_COLOR,
        ColorMode::Monochrome => DMCOLOR_MONOCHROME,
    }
}

/// The warning for a tray the driver replaced with `chosen`.
pub open spec fn tray_warning(chosen: i16) -> Seq<char> {
    "The driver rejected the selected tray and chose "@ + signed_decimal(chosen as int) + " instead."@
}

/// What a driver overrode of `settings`, as warnings for the person printing,
/// in the order duplex, colour, tray, paper size.
pub open spec fn override_warnings(mode: DevModeFields, settings: PrintSettings) -> Seq<Seq<char>> {
    let duplex: Seq<Seq<char>> = if mode.duplex != duplex_code(settings.duplex) {
        seq!["The driver overrode the two-sided setting; this printer may not support it."@]
    } else {
        Seq::empty()
    };
    let color: Seq<Seq<char>> = if mode.color != color_code(settings.color) {
        seq!["The driver overrode the color setting."@]
    } else {
        Seq::empty()
    };
    let tray: Seq<Seq<char>> = match settings.paper_source_id {
        Some(requested) => if mode.default_source != requested {
            seq![tray_warning(mode.default_source)]
        } else {
            Seq::empty()
        },
        None => Seq::empty(),
    };
    let paper: Seq<Seq<char>> = match settings.paper_size_id {
        Some(requested) => if mode.paper_size != requested {
            seq!["The driver rejected the selected paper size."@]
        } else {
            Seq::empty()
        },
        None => Seq::empty(),
    };
    duplex + color + tray + paper
}

impl DevModeFields {
    /// Writes `settings` into the members a driver reads, marking each in
    /// `dmFields`. Copies are driver-side: one render, N sheets. `landscape`
    /// is the page's own shape, used when the orientation is `Auto`.
    pub fn apply(&mut self, settings: &PrintSettings, landscape: bool)
        ensures
            *final(self) == applied(*old(self), *settings, landscape),
    {
        let mut fields = self.fields;

        self.duplex = duplex_value(settings.duplex);
        fields = fields | DM_DUPLEX;

        self.color = color_value(settings.color);
        fields = fields | DM_COLOR;

        self.collate = if settings.collate {
            DMCOLLATE_TRUE
        } else {
            DMCOLLATE_FALSE
        };
        fields = fields | DM_COLLATE;

        self.copies = if settings.copies < 1 {
            1
        } else if settings.copies > 0x7fff {
            0x7fff
        } else {
            settings.copies as i16
        };
        fields = fields | DM_COPIES;

        if let Some(source) = settings.paper_source_id {
            self.default_source = source;
            fields = fields | DM_DEFAULTSOURCE;
        }

        if let Some(size) = settings.paper_size_id {
            self.paper_size = size;
            fields = fields | DM_PAPERSIZE;
        }

        self.orientation = match settings.orientation {
            Orientation::Portrait => DMORIENT_PORTRAIT,
            Orientation::Landscape => DMORIENT_LANDSCAPE,
            Orientation::Auto => if landscape {
                DMORIENT_LANDSCAPE
            } else {
                DMORIENT_PORTRAIT
            },
        };
        fields = fields | DM_ORIENTATION;

        self.fields = fields;
    }

    /// What the driver overrode of `settings` once it merged them with its
    /// own, so the UI can say so.
    pub fn diff_warnings(&self, settings: &PrintSettings) -> (r: Vec<String>)
        ensures
            r@.map_values(|w: String| w@) == override_warnings(*self, *settings),
    {
        let mut warnings: Vec<String> = Vec::new();
        let ghost duplex: Seq<Seq<char>> = if self.duplex != duplex_code(settings.duplex) {
            seq!["The driver overrode the two-sided setting; this printer may not support it."@]
        } else {
            Seq::empty()
        };
        let ghost color: Seq<Seq<char>> = if self.color != color_code(settings.color) {
            seq!["The driver overrode the color setting."@]
        } else {
            Seq::empty()
        };

        if self.duplex != duplex_value(settings.duplex) {
            warnings.push(String::from_str(
                "The driver overrode the two-sided setting; this printer may not support it.",
            ));
        }
        assert(warnings@.map_values(|w: String| w@) =~= duplex);

        if self.color != color_value(settings.color) {
            warnings.push(String::from_str("The driver overrode the color setting."));
        }
        assert(warnings@.map_values(|w: String| w@) =~= duplex + color);

        let ghost tray: Seq<Seq<char>> = match settings.paper_source_id {
            Some(requested) => if self.default_source != requested {
                seq![tray_warning(self.default_source)]
            } else {
                Seq::empty()
            },
            None => Seq::empty(),
        };
        if let Some(requested) = settings.paper_source_id {
            if self.default_source != requested {
                let mut message = String::from_str("The driver rejected the selected tray and chose ");
                message.append(signed_decimal_text(self.default_source as i64).as_str());
                message.append(" instead.");
                warnings.push(message);
            }
        }
        assert(warnings@.map_values(|w: String| w@) =~= duplex + color + tray);

        let ghost paper: Seq<Seq<char>> = match settings.paper_size_id {
            Some(requested) => if self.paper_size != requested {
                seq!["The driver rejected the selected paper size."@]
            } else {
                Seq::empty()
            },
            None => Seq::empty(),
        };
        if let Some(requested) = settings.paper_size_id {
            if self.paper_size != requested {
                warnings.push(String::from_str("The driver rejected the selected paper size."));
            }
        }
        assert(warnings@.map_values(|w: String| w@) =~= duplex + color + tray + paper);
        warnings
    }
}

/// The name a driver gives the entry at `index`, or `fallback` where it gives
/// none (or an empty one).
pub open spec fn listed_name(names: Seq<Seq<char>>, index: int, fallback: Seq<char>) -> Seq<char> {
    if index < names.len() && names[index].len() > 0 {
        names[index]
    } else {
        fallback
    }
}

fn name_or(names: &[String], index: usize, fallback: String) -> (r: String)
    ensures
        r@ == listed_name(names@.map_values(|n: String| n@), index as int, fallback@),
{
    if index < names.len() && names[index].as_str().unicode_len() > 0 {
        names[index].clone()
    } else {
        fallback
    }
}

/// The trays a driver lists: each bin id (reinterpreted as the signed number
/// `dmDefaultSource` holds) with its display name, or `Tray {id}`.
pub fn paper_sources(bin_ids: &[u16], bin_names: &[String]) -> (r: Vec<PaperSource>)
    ensures
        r@.len() == bin_ids@.len(),
        forall|i: int| 0 <= i < bin_ids@.len() ==> #[trigger] r@[i].id == bin_ids@[i] as i16 && r@[i].name@
            == listed_name(
            bin_names@.map_values(|n: String| n@),
            i,
            "Tray "@ + decimal(bin_ids@[i] as nat),
        ),
{
    let mut out: Vec<PaperSource> = Vec::new();
    let mut k: usize = 0;
    while k < bin_ids.len()
        invariant
            k <= bin_ids@.len(),
            out@.len() == k,
            forall|i: int| 0 <= i < k ==> #[trigger] out@[i].id == bin_ids@[i] as i16 && out@[i].name@
                == listed_name(
                bin_names@.map_values(|n: String| n@),
                i,
                "Tray "@ + decimal(bin_ids@[i] as nat),
            ),
        decreases bin_ids@.len() - k,
    {
        let id = bin_ids[k];
        let mut fallback = String::from_str("Tray ");
        fallback.append(decimal_text(id as u64).as_str());
        out.push(PaperSource { id: id as i16, name: name_or(bin_names, k, fallback) });
        k = k + 1;
    }
    out
}

/// A paper size as a driver reports it: its id, display name, and width and
/// height in tenths of a millimetre where the driver gave them.
pub struct PaperEntry {
    pub id: i16,
    pub name: String,
    pub width_tenths_mm: Option<i32>,
    pub height_tenths_mm: Option<i32>,
}

/// The entry at `index` of a list, if there is one.
pub open spec fn entry_at(values: Seq<i32>, index: int) -> Option<i32> {
    if 0 <= index < values.len() {
        Some(values[index])
    } else {
        None
    }
}

/// The paper sizes a driver lists: each id with its display name, or
/// `Paper {id}`, and the (width, height) pair at its place among `dims`.
pub fn paper_entries(paper_ids: &[u16], paper_names: &[String], dims: &[i32]) -> (r: Vec<PaperEntry>)
    ensures
        r@.len() == paper_ids@.len(),
        forall|i: int| 0 <= i < paper_ids@.len() ==> {
            &&& #[trigger] r@[i].id == paper_ids@[i] as i16
            &&& r@[i].name@ == listed_name(
                paper_names@.map_values(|n: String| n@),
                i,
                "Paper "@ + decimal(paper_ids@[i] as nat),
            )
            &&& r@[i].width_tenths_mm == entry_at(dims@, 2 * i)
            &&& r@[i].height_tenths_mm == entry_at(dims@, 2 * i + 1)
        },
{
    let mut out: Vec<PaperEntry> = Vec::new();
    let mut k: usize = 0;
    while k < paper_ids.len()
        invariant
            k <= paper_ids@.len(),
            out@.len() == k,
            forall|i: int| 0 <= i < k ==> {
                &&& #[trigger] out@[i].id == paper_ids@[i] as i16
                &&& out@[i].name@ == listed_name(
                    paper_names@.map_values(|n: String| n@),
                    i,
                    "Paper "@ + decimal(paper_ids@[i] as nat),
                )
                &&& out@[i].width_tenths_mm == entry_at(dims@, 2 * i)
                &&& out@[i].height_tenths_mm == entry_at(dims@, 2 * i + 1)
            },
        decreases paper_ids@.len() - k,
    {
        let id = paper_ids[k];
        let mut fallback = String::from_str("Paper ");
        fallback.append(decimal_text(id as u64).as_str());
        let width = if dims.len() > 0 && k <= (dims.len() - 1) / 2 {
            Some(dims[2 * k])
        } else {
            None
        };
        let height = if k < dims.len() / 2 {
            Some(dims[2 * k + 1])
        } else {
            None
        };
        out.push(PaperEntry { id: id as i16, name: name_or(paper_names, k, fallback), width_tenths_mm: width, height_tenths_mm: height });
        k = k + 1;
    }
    out
}

/// The resolutions a driver lists, read as (x, y) pairs; a lone last value is
/// ignored.
pub fn resolutions(values: &[i32]) -> (r: Vec<Resolution>)
    ensures
        r@.len() == values@.len() / 2,
        forall|i: int| 0 <= i < r@.len() ==> #[trigger] r@[i] == (Resolution { x_dpi: values@[2 * i], y_dpi: values@[2 * i + 1] }),
{
    let mut out: Vec<Resolution> = Vec::new();
    let mut k: usize = 0;
    while k < values.len() / 2
        invariant
            k <= values@.len() / 2,
            out@.len() == k,
            forall|i: int| 0 <= i < k ==> #[trigger] out@[i] == (Resolution { x_dpi: values@[2 * i], y_dpi: values@[2 * i + 1] }),
        decreases values@.len() / 2 - k,
    {
        out.push(Resolution { x_dpi: values[2 * k], y_dpi: values[2 * k + 1] });
        k = k + 1;
    }
    out
}

/// The dialog defaults a driver's settings stand for: unknown duplex codes
/// read as one-sided, anything but monochrome as colour, anything but
/// landscape as portrait, and at least one copy.
pub open spec fn defaults_of(mode: DevModeFields) -> PrinterDefaults {
    PrinterDefaults {
        duplex: if mode.duplex == DMDUP_VERTICAL {
            DuplexMode::LongEdge
        } else if mode.duplex == DMDUP_HORIZONTAL {
            DuplexMode::ShortEdge
        } else {
            DuplexMode::Simplex
        },
        color: if mode.color == DMCOLOR_MONOCHROME {
            ColorMode::Monochrome
        } else {
            ColorMode::Color
        },
        paper_source_id: Some(mode.default_source),
        paper_size_id: Some(mode.paper_size),
        orientation: if mode.orientation == DMORIENT_LANDSCAPE {
            Orientation::Landscape
        } else {
            Orientation::Portrait
        },
        copies: if mode.copies < 1 { 1 } else { mode.copies as i32 },
        collate: mode.collate == DMCOLLATE_TRUE,
    }
}

impl DevModeFields {
    /// The driver's current settings as defaults for the print dialog.
    pub fn printer_defaults(&self) -> (r: PrinterDefaults)
        ensures
            r == defaults_of(*self),
    {
        PrinterDefaults {
            duplex: if self.duplex == DMDUP_VERTICAL {
                DuplexMode::LongEdge
            } else if self.duplex == DMDUP_HORIZONTAL {
                DuplexMode::ShortEdge
            } else {
                DuplexMode::Simplex
            },
            color: if self.color == DMCOLOR_MONOCHROME {
                ColorMode::Monochrome
            } else {
                ColorMode::Color
            },
            paper_source_id: Some(self.default_source),
            paper_size_id: Some(self.paper_size),
            orientation: if self.orientation == DMORIENT_LANDSCAPE {
                Orientation::Landscape
            } else {
                Orientation::Portrait
            },
            copies: if self.copies < 1 { 1 } else { self.copies as i32 },
            collate: self.collate == DMCOLLATE_TRUE,
        }
    }
}

} // verus!
