//! What the app reads from outside: the command line it was started with and
//! the page URLs the webview asks for.

use vstd::prelude::*;

use crate::pdf::unicode::{chars_of, push_char};

verus! {

/// A bare file name, not a flag, ending in `.pdf` in any case after at least
/// one character, with no `/`, `\` or `:` before that: a single path
/// component on every platform, whose extension is that `pdf`.
pub open spec fn plain_pdf_name(arg: Seq<char>) -> bool {
    let n = arg.len();
    &&& n >= 5
    &&& arg[0] != '-'
    &&& arg[n - 4] == '.'
    &&& (arg[n - 3] == 'p' || arg[n - 3] == 'P')
    &&& (arg[n - 2] == 'd' || arg[n - 2] == 'D')
    &&& (arg[n - 1] == 'f' || arg[n - 1] == 'F')
    &&& forall|k: int| 0 <= k < n - 4 ==> #[trigger] arg[k] != '/' && arg[k] != '\\' && arg[k] != ':'
}

/// A path separator on some platform: `/`, or Windows' `\`.
pub open spec fn is_separator(c: char) -> bool {
    c == '/' || c == '\\'
}

/// An argument naming a PDF by its path, absolute or relative: not a flag,
/// ending in `.pdf` in any case, with the character before that `.` neither a
/// separator nor a drive's `:`, so that the path's last component is a file
/// name with more than its extension, and the extension is `pdf`. Paths
/// beginning with two separators (Windows UNC and device paths, whose prefix
/// the platform parses) are left out.
pub open spec fn pdf_path_arg(arg: Seq<char>) -> bool {
    let n = arg.len();
    &&& n >= 5
    &&& arg[0] != '-'
    &&& arg[n - 4] == '.'
    &&& (arg[n - 3] == 'p' || arg[n - 3] == 'P')
    &&& (arg[n - 2] == 'd' || arg[n - 2] == 'D')
    &&& (arg[n - 1] == 'f' || arg[n - 1] == 'F')
    &&& !is_separator(arg[n - 5]) && arg[n - 5] != ':'
    &&& !(is_separator(arg[0]) && is_separator(arg[1]))
}

/// What picking a PDF out of a command line gives: the first argument after
/// the program's own that names a PDF file by its path is always found, and
/// whatever is found is an argument after the program's own, not a flag, that
/// is a file, with no argument before it naming a PDF file by its path.
pub open spec fn picks_pdf(args: Seq<Seq<char>>, is_file: Seq<bool>, r: Option<Seq<char>>) -> bool {
    &&& match r {
        Some(path) => exists|i: int|
            1 <= i < args.len() && #[trigger] args[i] == path && is_file[i] && !(args[i].len() > 0 && args[i][0]
                == '-') && forall|j: int| 1 <= j < i ==> !(is_file[j] && #[trigger] pdf_path_arg(args[j])),
        None => true,
    }
    &&& (exists|i: int| 1 <= i < args.len() && is_file[i] && #[trigger] pdf_path_arg(args[i])) ==> r is Some
}

/// The arguments as text.
pub open spec fn arg_texts(args: Seq<String>) -> Seq<Seq<char>> {
    args.map_values(|a: String| a@)
}

/// A PDF named on the command line is opened: where some argument after the
/// program's own names a PDF file by its path (Explorer passes the full path,
/// `C:\dir\x.pdf`; a shell may pass `/home/x.pdf` or `x.pdf`), the first such
/// argument is the one picked, where no file argument other than a flag
/// comes before it.
pub proof fn law_a_pdf_named_on_the_command_line_is_opened(
    args: Seq<Seq<char>>,
    is_file: Seq<bool>,
    r: Option<Seq<char>>,
    i: int,
)
    requires
        picks_pdf(args, is_file, r),
        1 <= i < args.len(),
        is_file[i],
        pdf_path_arg(args[i]),
        forall|j: int| 1 <= j < i ==> !#[trigger] is_file[j] || (args[j].len() > 0 && args[j][0] == '-'),
    ensures
        r == Some(args[i]),
{
    assert(exists|k: int| 1 <= k < args.len() && is_file[k] && #[trigger] pdf_path_arg(args[k]));
    let path = r->0;
    let k = choose|k: int|
        1 <= k < args.len() && #[trigger] args[k] == path && is_file[k] && !(args[k].len() > 0 && args[k][0]
            == '-') && forall|j: int| 1 <= j < k ==> !(is_file[j] && #[trigger] pdf_path_arg(args[j]));
    if k > i {
        assert(!(is_file[i] && pdf_path_arg(args[i])));
    }
}

/// `std::path::Path::extension` of `arg`, as text. Where a file name's
/// extension starts depends on the platform's path syntax (Windows also splits
/// at `\`); what is promised is only that a bare file name ending in `.pdf`
/// (any case) has those last three characters as its extension, as
/// `Path::file_name` and `Path::extension` document: the final component is
/// the whole name, and its extension is what follows the last `.`, the name
/// not beginning with it. An extension taken from a `&str` is valid UTF-8, so
/// the lossy conversion changes nothing.
#[verifier::external_body]
fn path_extension(arg: &str) -> (r: Option<String>)
    ensures
        plain_pdf_name(arg@) ==> r is Some && r.unwrap()@ == arg@.subrange(arg@.len() - 3, arg@.len() as int),
        pdf_path_arg(arg@) ==> r is Some && r.unwrap()@ == arg@.subrange(arg@.len() - 3, arg@.len() as int),
{
    std::path::Path::new(arg).extension().map(|ext| ext.to_string_lossy().into_owned())
}

/// Whether `arg`'s extension is `pdf`, ignoring ASCII case.
fn has_pdf_extension(arg: &str) -> (r: bool)
    ensures
        plain_pdf_name(arg@) ==> r,
        pdf_path_arg(arg@) ==> r,
{
    match path_extension(arg) {
        Some(ext) => {
            let chars = chars_of(ext.as_str());
            chars.len() == 3 && (chars[0] == 'p' || chars[0] == 'P') && (chars[1] == 'd' || chars[1] == 'D')
                && (chars[2] == 'f' || chars[2] == 'F')
        },
        None => false,
    }
}

/// Picks a PDF path out of a command line. `is_file[i]` says whether
/// `args[i]` names an existing file.
///
/// Explorer passes the file as the first argument, but a dev run adds flags of
/// its own, so scan for something that looks like a PDF rather than trusting
/// `argv[1]`: the first argument after the program's own, not a flag, with a
/// `.pdf` extension in any case, that is a file.
pub fn pdf_path_from_args(args: &[String], is_file: &[bool]) -> (r: Option<String>)
    requires
        is_file@.len() == args@.len(),
    ensures
        match r {
            Some(path) => exists|i: int|
                1 <= i < args@.len() && #[trigger] args@[i]@ == path@ && is_file@[i] && !(
                args@[i]@.len() > 0 && args@[i]@[0] == '-'),
            None => true,
        },
        args@.len() <= 1 ==> r is None,
        // A bare `.pdf` file name after the program's own is always found.
        (exists|i: int| 1 <= i < args@.len() && is_file@[i] && #[trigger] plain_pdf_name(args@[i]@)) ==> r is Some,
        picks_pdf(
            arg_texts(args@),
            is_file@,
            match r {
                Some(path) => Some(path@),
                None => None,
            },
        ),
{
    let mut i: usize = 1;
    while i < args.len()
        invariant
            1 <= i,
            is_file@.len() == args@.len(),
            forall|j: int| 1 <= j < i && j < args@.len() ==> !(is_file@[j] && #[trigger] plain_pdf_name(args@[j]@)),
            forall|j: int| 1 <= j < i && j < args@.len() ==> !(is_file@[j] && #[trigger] pdf_path_arg(args@[j]@)),
        decreases args@.len() - i,
    {
        let chars = chars_of(args[i].as_str());
        let flag = chars.len() > 0 && chars[0] == '-';
        if !flag && has_pdf_extension(args[i].as_str()) && is_file[i] {
            let found = args[i].clone();
            proof {
                let texts = arg_texts(args@);
                assert(texts[i as int] == found@);
                assert(forall|j: int| 1 <= j < i ==> !(is_file@[j] && #[trigger] pdf_path_arg(texts[j])));
            }
            return Some(found);
        }
        i = i + 1;
    }
    None
}

/// The pieces of `text` between `/` characters, empty ones included, as
/// `str::split('/')` gives them, from position `i` with the piece in progress.
pub open spec fn pieces_from(text: Seq<char>, i: int, current: Seq<char>) -> Seq<Seq<char>>
    decreases text.len() - i,
{
    if i < 0 || i >= text.len() {
        seq![current]
    } else if text[i] == '/' {
        seq![current] + pieces_from(text, i + 1, Seq::empty())
    } else {
        pieces_from(text, i + 1, current.push(text[i]))
    }
}

/// `str::split('/')`.
pub open spec fn pieces(text: Seq<char>) -> Seq<Seq<char>> {
    pieces_from(text, 0, Seq::empty())
}

/// `str::trim_start_matches('/')`: `text` after its leading slashes.
pub open spec fn without_leading_slashes(text: Seq<char>) -> Seq<char>
    decreases text.len(),
{
    if text.len() > 0 && text[0] == '/' {
        without_leading_slashes(text.subrange(1, text.len() as int))
    } else {
        text
    }
}

pub open spec fn digit_value(c: char) -> int {
    c as int - '0' as int
}

pub open spec fn is_digit(c: char) -> bool {
    '0' <= c <= '9'
}

/// The number a run of decimal digits spells.
pub open spec fn digits_value(digits: Seq<char>) -> nat
    decreases digits.len(),
{
    if digits.len() == 0 {
        0
    } else {
        (digits_value(digits.drop_last()) * 10 + digit_value(digits.last())) as nat
    }
}

/// `str::parse` for an unsigned integer up to `max`: an optional `+`, then one
/// or more decimal digits, of a value that fits.
pub open spec fn parsed_unsigned(text: Seq<char>, max: nat) -> Option<nat> {
    if unsigned_digits(text).len() > 0 && all_digits(unsigned_digits(text)) && digits_value(
        unsigned_digits(text),
    ) <= max {
        Some(digits_value(unsigned_digits(text)))
    } else {
        None
    }
}

/// `text` without the optional leading `+` of an unsigned number.
pub open spec fn unsigned_digits(text: Seq<char>) -> Seq<char> {
    if text.len() > 1 && text[0] == '+' {
        text.subrange(1, text.len() as int)
    } else {
        text
    }
}

pub open spec fn all_digits(digits: Seq<char>) -> bool {
    forall|i: int| 0 <= i < digits.len() ==> is_digit(#[trigger] digits[i])
}

proof fn lemma_digits_value_grows(digits: Seq<char>, n: int)
    requires
        0 <= n < digits.len(),
        forall|i: int| 0 <= i < digits.len() ==> is_digit(#[trigger] digits[i]),
    ensures
        digits_value(digits.subrange(0, n)) <= digits_value(digits.subrange(0, n + 1)),
{
    let next = digits.subrange(0, n + 1);
    assert(next.drop_last() =~= digits.subrange(0, n));
}

proof fn lemma_digits_value_prefix(digits: Seq<char>, n: int)
    requires
        0 <= n <= digits.len(),
        forall|i: int| 0 <= i < digits.len() ==> is_digit(#[trigger] digits[i]),
    ensures
        digits_value(digits.subrange(0, n)) <= digits_value(digits),
    decreases digits.len() - n,
{
    if n < digits.len() {
        lemma_digits_value_grows(digits, n);
        lemma_digits_value_prefix(digits, n + 1);
    } else {
        assert(digits.subrange(0, n) =~= digits);
    }
}

/// `text.parse::<u64>()`, kept where it fits under `max`.
fn parse_unsigned(text: &str, max: u64) -> (r: Option<u64>)
    ensures
        match r {
            Some(value) => parsed_unsigned(text@, max as nat) == Some(value as nat),
            None => parsed_unsigned(text@, max as nat) is None,
        },
{
    let chars = chars_of(text);
    let start: usize = if chars.len() > 1 && chars[0] == '+' {
        1
    } else {
        0
    };
    let ghost digits = if text@.len() > 1 && text@[0] == '+' {
        text@.subrange(1, text@.len() as int)
    } else {
        text@
    };
    if start >= chars.len() {
        return None;
    }
    let mut value: u64 = 0;
    let mut k: usize = start;
    while k < chars.len()
        invariant
            start <= k <= chars@.len(),
            chars@ == text@,
            digits == text@.subrange(start as int, text@.len() as int),
            digits == unsigned_digits(text@),
            digits.len() > 0,
            forall|i: int| 0 <= i < k - start ==> is_digit(#[trigger] digits[i]),
            value as nat == digits_value(digits.subrange(0, k - start)),
            value <= max,
        decreases chars@.len() - k,
    {
        let c = chars[k];
        if !('0' <= c && c <= '9') {
            assert(!is_digit(digits[k - start]));
            return None;
        }
        let d = (c as u32 - '0' as u32) as u64;
        assert(digits.subrange(0, k + 1 - start).drop_last() =~= digits.subrange(0, k - start));
        assert(digits[k - start] == c);
        let fits = d <= max && value <= (max - d) / 10;
        if !fits {
            proof {
                if d <= max {
                    assert(value * 10 + d > max) by (nonlinear_arith)
                        requires
                            value > (max - d) / 10,
                            d <= max,
                    ;
                }
                assert(digits_value(digits.subrange(0, k + 1 - start)) > max);
                if forall|i: int| 0 <= i < digits.len() ==> is_digit(#[trigger] digits[i]) {
                    lemma_digits_value_prefix(digits, k + 1 - start);
                }
            }
            return None;
        }
        proof {
            assert(value * 10 + d <= max) by (nonlinear_arith)
                requires
                    value <= (max - d) / 10,
                    d <= max,
            ;
        }
        value = value * 10 + d;
        k = k + 1;
    }
    assert(digits.subrange(0, digits.len() as int) =~= digits);
    Some(value)
}


/// `text.trim_start_matches('/').split('/')`.
fn slash_pieces(text: &str) -> (r: Vec<String>)
    ensures
        r@.map_values(|p: String| p@) == pieces(without_leading_slashes(text@)),
{
    let chars = chars_of(text);
    let mut start: usize = 0;
    assert(text@.subrange(0, text@.len() as int) =~= text@);
    while start < chars.len() && chars[start] == '/'
        invariant
            start <= chars@.len(),
            chars@ == text@,
            without_leading_slashes(text@) == without_leading_slashes(
                text@.subrange(start as int, text@.len() as int),
            ),
        decreases chars@.len() - start,
    {
        let ghost rest = text@.subrange(start as int, text@.len() as int);
        assert(rest.subrange(1, rest.len() as int) =~= text@.subrange(start + 1, text@.len() as int));
        start = start + 1;
    }
    let ghost body = text@.subrange(start as int, text@.len() as int);
    assert(without_leading_slashes(text@) == body);
    let mut out: Vec<String> = Vec::new();
    let mut current = String::new();
    let mut i: usize = start;
    assert(current@ =~= Seq::<char>::empty());
    while i < chars.len()
        invariant
            start <= i <= chars@.len(),
            chars@ == text@,
            body == text@.subrange(start as int, text@.len() as int),
            pieces(body) == out@.map_values(|p: String| p@) + pieces_from(body, i - start, current@),
        decreases chars@.len() - i,
    {
        let c = chars[i];
        assert(body[i - start] == c);
        if c == '/' {
            let ghost done = out@.map_values(|p: String| p@);
            let ghost piece = current@;
            out.push(current);
            current = String::new();
            assert(out@.map_values(|p: String| p@) =~= done.push(piece));
            assert(done + (seq![piece] + pieces_from(body, i + 1 - start, Seq::empty())) =~= done.push(
                piece,
            ) + pieces_from(body, i + 1 - start, Seq::empty()));
            assert(current@ =~= Seq::<char>::empty());
        } else {
            push_char(&mut current, c);
        }
        i = i + 1;
    }
    let ghost done = out@.map_values(|p: String| p@);
    let ghost piece = current@;
    out.push(current);
    assert(out@.map_values(|p: String| p@) =~= done + seq![piece]);
    out
}

fn same_chars(a: &str, b: &str) -> (r: bool)
    ensures
        r == (a@ == b@),
{
    let x = chars_of(a);
    let y = chars_of(b);
    if x.len() != y.len() {
        return false;
    }
    let mut i: usize = 0;
    while i < x.len()
        invariant
            i <= x@.len(),
            x@.len() == y@.len(),
            x@ == a@,
            y@ == b@,
            forall|j: int| 0 <= j < i ==> x@[j] == y@[j],
        decreases x@.len() - i,
    {
        if x[i] != y[i] {
            return false;
        }
        i = i + 1;
    }
    assert(x@ =~= y@);
    true
}

/// What `parse_page_request` reads from `page/{documentId}/{index}/{dpi}/…`:
/// the document id, the page index, and the dpi as written.
pub open spec fn page_request(path: Seq<char>) -> Option<(u64, usize, Seq<char>)> {
    let parts = pieces(without_leading_slashes(path));
    if parts.len() >= 4 && parts[0] == "page"@ {
        match (parsed_unsigned(parts[1], u64::MAX as nat), parsed_unsigned(parts[2], usize::MAX as nat)) {
            (Some(document), Some(index)) => Some((document as u64, index as usize, parts[3])),
            _ => None,
        }
    } else {
        None
    }
}

/// Parses `page/{documentId}/{index}/{dpi}/{revision}` out of a request path.
/// The dpi comes back as written; reading it as a number is the caller's.
pub fn parse_page_request(path: &str) -> (r: Option<(u64, usize, String)>)
    ensures
        match r {
            Some((document, index, dpi)) => page_request(path@) == Some((document, index, dpi@)),
            None => page_request(path@) is None,
        },
{
    let parts = slash_pieces(path);
    if parts.len() < 4 || !same_chars(parts[0].as_str(), "page") {
        return None;
    }
    let document = match parse_unsigned(parts[1].as_str(), u64::MAX) {
        Some(document) => document,
        None => return None,
    };
    let index = match parse_unsigned(parts[2].as_str(), usize::MAX as u64) {
        Some(index) => index as usize,
        None => return None,
    };
    Some((document, index, parts[3].clone()))
}

} // verus!
