//! Editing page text: which form XObjects the page walk follows, whether a
//! run's own font can spell new text, and how the content operations of an
//! edited run are rewritten. Positions are float work and stay with the
//! caller; these are the decisions.

use vstd::prelude::*;

use vstd::string::{StringExecFns, StringSliceAdditionalSpecFns};

use crate::pdf::content::{cleared_as, clear_shown_text, replace_shown_text, replaced_with, selected_font, ContentOp};
use crate::pdf::object::copy_bytes;
use crate::pdf::document::{document_objects, get_object, object_of};
use crate::pdf::fonts::{encoded, font_codes, FontCoding};
use crate::pdf::forms::same_text_of;
use crate::pdf::object::{same_bytes, ObjectId, PdfDict, PdfObject, PdfStream, TextFormat};

verus! {

/// How an edit was applied, so the caller can say what happened.
pub enum EditOutcome {
    /// Rewritten in the document's own font; visually seamless.
    InPlace,
    /// Covered and redrawn in a substituted font, because the original could
    /// not spell the new text.
    Redrawn,
}

/// How deep the page walk follows form XObjects drawn by form XObjects.
pub const MAX_XOBJECT_DEPTH: usize = 8;

/// A form XObject: a stream whose `/Subtype` is `/Form`.
pub open spec fn is_form(stream: PdfStream) -> bool {
    stream.dict.lookup("Subtype".spec_bytes()) matches Some(PdfObject::Name(subtype)) && subtype@
        == "Form".spec_bytes()
}

/// The form a `Do name` leads the walk into, at nesting `depth`, with the
/// forms in `seen` being drawn already: below the depth limit, the name is a
/// reference in `xobjects`, not one of `seen` (a form that draws itself would
/// never end), and it resolves to a form XObject. Image XObjects have no text.
pub open spec fn form_target(
    objects: Map<ObjectId, PdfObject>,
    xobjects: PdfDict,
    name: Seq<u8>,
    depth: nat,
    seen: Seq<ObjectId>,
) -> Option<(ObjectId, PdfStream)> {
    if depth >= MAX_XOBJECT_DEPTH {
        None
    } else {
        match xobjects.lookup(name) {
            Some(PdfObject::Reference(id)) => if seen.contains(id) {
                None
            } else {
                match object_of(objects, id) {
                    Some(PdfObject::Stream(stream)) => if is_form(stream) {
                        Some((id, stream))
                    } else {
                        None
                    },
                    _ => None,
                }
            },
            _ => None,
        }
    }
}

/// Whether `seen` holds `id`.
fn holds(seen: &[ObjectId], id: ObjectId) -> (r: bool)
    ensures
        r == seen@.contains(id),
{
    let mut k: usize = 0;
    while k < seen.len()
        invariant
            k <= seen@.len(),
            forall|j: int| 0 <= j < k ==> seen@[j] != id,
        decreases seen@.len() - k,
    {
        if seen[k].0 == id.0 && seen[k].1 == id.1 {
            assert(seen@[k as int] == id);
            return true;
        }
        k = k + 1;
    }
    false
}

/// The form XObject a `Do name` draws, for the page walk to descend into.
pub fn form_to_walk(
    doc: &lopdf::Document,
    xobjects: &PdfDict,
    name: &[u8],
    depth: usize,
    seen: &[ObjectId],
) -> (r: Option<(ObjectId, PdfStream)>)
    ensures
        r == form_target(document_objects(*doc), *xobjects, name@, depth as nat, seen@),
{
    if depth >= MAX_XOBJECT_DEPTH {
        return None;
    }
    let id = match xobjects.get(name) {
        Some(PdfObject::Reference(id)) => *id,
        _ => return None,
    };
    if holds(seen, id) {
        return None;
    }
    match get_object(doc, id) {
        Some(PdfObject::Stream(stream)) => {
            let form = match stream.dict.get("Subtype".as_bytes()) {
                Some(PdfObject::Name(subtype)) => same_bytes(subtype.as_slice(), "Form".as_bytes()),
                _ => false,
            };
            if form {
                Some((id, stream))
            } else {
                None
            }
        },
        _ => None,
    }
}

/// The bytes the run's font writes `text` with, where it can: every character
/// has a code in the font, and, for an embedded font (almost always a subset
/// holding only the glyphs the document uses), every code is one the page
/// already draws with it (`used`; `None` where that is not known).
pub open spec fn spelled(coding: FontCoding, text: Seq<char>, used: Option<Seq<u32>>) -> Option<Seq<u8>> {
    match encoded(coding.from_unicode@, text) {
        None => None,
        Some(bytes) => if !coding.embedded {
            Some(bytes)
        } else {
            match used {
                Some(codes) => if forall|i: int|
                    0 <= i < font_codes(coding.two_byte, bytes).len() ==> codes.contains(
                        #[trigger] font_codes(coding.two_byte, bytes)[i],
                    ) {
                    Some(bytes)
                } else {
                    None
                },
                None => None,
            }
        },
    }
}

/// The codes in use, as a sequence.
pub open spec fn codes_of(used: Option<&[u32]>) -> Option<Seq<u32>> {
    match used {
        Some(codes) => Some(codes@),
        None => None,
    }
}

/// [`spelled`], computed.
pub fn spell_in_font(coding: &FontCoding, text: &str, used: Option<&[u32]>) -> (r: Option<Vec<u8>>)
    ensures
        match r {
            Some(bytes) => spelled(*coding, text@, codes_of(used)) == Some(bytes@),
            None => spelled(*coding, text@, codes_of(used)) is None,
        },
{
    let bytes = match coding.encode(text) {
        Some(bytes) => bytes,
        None => return None,
    };
    let ghost given = codes_of(used);
    if coding.embedded {
        let in_use = match used {
            Some(in_use) => in_use,
            None => return None,
        };
        let codes = coding.codes(bytes.as_slice());
        let mut k: usize = 0;
        while k < codes.len()
            invariant
                k <= codes@.len(),
                codes@ == font_codes(coding.two_byte, bytes@),
                given == Some(in_use@),
                given == codes_of(used),
                coding.embedded,
                encoded(coding.from_unicode@, text@) == Some(bytes@),
                forall|i: int| 0 <= i < k ==> in_use@.contains(#[trigger] codes@[i]),
            decreases codes@.len() - k,
        {
            let mut found = false;
            let mut j: usize = 0;
            while j < in_use.len()
                invariant
                    j <= in_use@.len(),
                    k < codes@.len(),
                    codes@ == font_codes(coding.two_byte, bytes@),
                    given == Some(in_use@),
                    given == codes_of(used),
                    coding.embedded,
                    encoded(coding.from_unicode@, text@) == Some(bytes@),
                    forall|i: int| 0 <= i < k ==> in_use@.contains(#[trigger] codes@[i]),
                    found ==> in_use@.contains(codes@[k as int]),
                    !found ==> forall|jj: int| 0 <= jj < j ==> in_use@[jj] != codes@[k as int],
                decreases in_use@.len() - j,
            {
                if in_use[j] == codes[k] {
                    assert(in_use@[j as int] == codes@[k as int]);
                    found = true;
                }
                j = j + 1;
            }
            if !found {
                assert(!in_use@.contains(codes@[k as int]));
                assert(font_codes(coding.two_byte, bytes@)[k as int] == codes@[k as int]);
                assert(given == Some(in_use@));
                assert(encoded(coding.from_unicode@, text@) == Some(bytes@));
                assert(!(forall|i: int|
                    0 <= i < font_codes(coding.two_byte, bytes@).len() ==> in_use@.contains(
                        #[trigger] font_codes(coding.two_byte, bytes@)[i],
                    )));
                assert(spelled(*coding, text@, given) is None);
                return None;
            }
            k = k + 1;
        }
    }
    Some(bytes)
}

/// The operations of a content stream include an inline image (`BI`).
pub open spec fn has_inline_image(ops: Seq<ContentOp>) -> bool {
    exists|i: int| 0 <= i < ops.len() && #[trigger] ops[i].operator@ == "BI"@
}

/// `after` is `before` with the run drawn by `run_ops` edited: where its font
/// spells the new text (`written`), the run's first operation draws it and the
/// rest draw nothing; otherwise every one of them draws nothing. Every other
/// operation is kept.
pub open spec fn edited(
    before: Seq<ContentOp>,
    run_ops: Seq<usize>,
    written: Option<Vec<u8>>,
    after: Seq<ContentOp>,
) -> bool {
    &&& after.len() == before.len()
    &&& forall|i: int|
        0 <= i < before.len() ==> {
            if written is Some && i == run_ops[0] {
                replaced_with(before[i], #[trigger] after[i], PdfObject::Text(written->0, TextFormat::Literal))
            } else if run_ops.contains(i as usize) {
                cleared_as(before[i], after[i])
            } else {
                after[i] == before[i]
            }
        }
}

/// Rewrites the operations of a content stream for an edit of the run drawn
/// by `run_ops` (its first operation first), where `written` is what the run's
/// font spells the new text as, if it can. A stream holding an inline image is
/// never rewritten (`lopdf` cannot write one back): the edit is redrawn over
/// it, and `None` comes back for the operations.
pub fn plan_text_edit(ops: Vec<ContentOp>, run_ops: &[usize], written: Option<Vec<u8>>) -> (r: (
    EditOutcome,
    Option<Vec<ContentOp>>,
))
    requires
        run_ops@.len() > 0,
        run_ops@.no_duplicates(),
        forall|k: int| 0 <= k < run_ops@.len() ==> #[trigger] run_ops@[k] < ops@.len(),
    ensures
        has_inline_image(ops@) ==> r.0 is Redrawn && r.1 is None,
        !has_inline_image(ops@) ==> (r.1 matches Some(after) && edited(ops@, run_ops@, written, after@)),
        !has_inline_image(ops@) ==> (if written is Some {
            r.0 is InPlace
        } else {
            r.0 is Redrawn
        }),
{
    let mut k: usize = 0;
    while k < ops.len()
        invariant
            k <= ops@.len(),
            forall|i: int| 0 <= i < k ==> ops@[i].operator@ != "BI"@,
        decreases ops@.len() - k,
    {
        if same_text_of(ops[k].operator.as_str(), "BI") {
            assert(ops@[k as int].operator@ == "BI"@);
            return (EditOutcome::Redrawn, None);
        }
        k = k + 1;
    }
    let ghost before = ops@;
    let ghost wanted = written;
    let in_place = written.is_some();
    let mut out = ops;
    let mut pending = written;
    let mut k: usize = 0;
    while k < run_ops.len()
        invariant
            k <= run_ops@.len(),
            run_ops@.len() > 0,
            run_ops@.no_duplicates(),
            forall|t: int| 0 <= t < run_ops@.len() ==> #[trigger] run_ops@[t] < before.len(),
            out@.len() == before.len(),
            before.len() <= usize::MAX,
            in_place == wanted is Some,
            k == 0 ==> pending == wanted,
            k > 0 ==> pending is None,
            forall|i: int|
                0 <= i < before.len() ==> {
                    if run_ops@.subrange(0, k as int).contains(i as usize) {
                        if wanted is Some && i == run_ops@[0] {
                            replaced_with(
                                before[i],
                                #[trigger] out@[i],
                                PdfObject::Text(wanted->0, TextFormat::Literal),
                            )
                        } else {
                            cleared_as(before[i], out@[i])
                        }
                    } else {
                        out@[i] == before[i]
                    }
                },
        decreases run_ops@.len() - k,
    {
        let index = run_ops[k];
        let ghost seen = out@;
        let mut op = out.remove(index);
        assert(op == before[index as int]) by {
            assert(!run_ops@.subrange(0, k as int).contains(index)) by {
                if run_ops@.subrange(0, k as int).contains(index) {
                    let t = choose|t: int| 0 <= t < k && #[trigger] run_ops@.subrange(0, k as int)[t] == index;
                    assert(run_ops@[t] == run_ops@[k as int]);
                }
            }
            assert(seen[index as int] == before[index as int]);
        }
        match pending {
            Some(bytes) => {
                replace_shown_text(&mut op, bytes);
                pending = None;
            },
            None => {
                clear_shown_text(&mut op);
            },
        }
        out.insert(index, op);
        proof {
            assert forall|i: int| 0 <= i < before.len() && i != index implies out@[i] == seen[i] by {}
            assert forall|i: int| 0 <= i < before.len() implies (#[trigger] run_ops@.subrange(0, k + 1).contains(i as usize)
                <==> (run_ops@.subrange(0, k as int).contains(i as usize) || i == index)) by {
                assert((i as usize) as int == i);
                if run_ops@.subrange(0, k + 1).contains(i as usize) {
                    let t = choose|t: int| 0 <= t < k + 1 && #[trigger] run_ops@.subrange(0, k + 1)[t] == i as usize;
                    if t < k {
                        assert(run_ops@.subrange(0, k as int)[t] == i as usize);
                    } else {
                        assert(run_ops@[k as int] == i as usize);
                    }
                }
                if run_ops@.subrange(0, k as int).contains(i as usize) {
                    let t = choose|t: int| 0 <= t < k && #[trigger] run_ops@.subrange(0, k as int)[t] == i as usize;
                    assert(run_ops@.subrange(0, k + 1)[t] == i as usize);
                }
                if i == index {
                    assert(run_ops@.subrange(0, k + 1)[k as int] == index);
                }
            }
            if k > 0 {
                assert(index != run_ops@[0]) by {
                    assert(run_ops@[0] != run_ops@[k as int]);
                }
            }
        }
        k = k + 1;
    }
    proof {
        assert(run_ops@.subrange(0, run_ops@.len() as int) =~= run_ops@);
    }
    let outcome = if in_place {
        EditOutcome::InPlace
    } else {
        EditOutcome::Redrawn
    };
    (outcome, Some(out))
}

/// The font in effect, and the fonts `q` saved, after the first `n`
/// operations: `Tf` selects a font, `q` saves the one in effect (the font is
/// part of the graphics state) and `Q` brings back the last one saved, where
/// one was. `BT` and `ET` leave the font as it is.
pub open spec fn font_state(ops: Seq<ContentOp>, n: nat) -> (Seq<u8>, Seq<Seq<u8>>)
    decreases n,
{
    if n == 0 || n > ops.len() {
        (Seq::empty(), Seq::empty())
    } else {
        let (font, saved) = font_state(ops, (n - 1) as nat);
        let op = ops[n - 1];
        if op.operator@ == "q"@ {
            (font, saved.push(font))
        } else if op.operator@ == "Q"@ {
            if saved.len() > 0 {
                (saved.last(), saved.drop_last())
            } else {
                (font, saved)
            }
        } else if op.operator@ == "Tf"@ {
            (selected_font(op), saved)
        } else {
            (font, saved)
        }
    }
}

/// An operator that shows text: `Tj`, `TJ`, `'` or `"`.
pub open spec fn is_show(op: ContentOp) -> bool {
    op.operator@ == "Tj"@ || op.operator@ == "TJ"@ || op.operator@ == "'"@ || op.operator@ == "\""@
}

/// Each show-text operation among the first `n`, in order: its index and the
/// font it draws with.
pub open spec fn shows_upto(ops: Seq<ContentOp>, n: nat) -> Seq<(usize, Seq<u8>)>
    decreases n,
{
    if n == 0 || n > ops.len() {
        Seq::empty()
    } else {
        let earlier = shows_upto(ops, (n - 1) as nat);
        if is_show(ops[n - 1]) {
            earlier.push(((n - 1) as usize, font_state(ops, (n - 1) as nat).0))
        } else {
            earlier
        }
    }
}

/// The fonts as values.
pub open spec fn font_names(fonts: Seq<Vec<u8>>) -> Seq<Seq<u8>> {
    fonts.map_values(|font: Vec<u8>| font@)
}

/// The shows as values.
pub open spec fn shows_view(shows: Seq<(usize, Vec<u8>)>) -> Seq<(usize, Seq<u8>)> {
    shows.map_values(|show: (usize, Vec<u8>)| (show.0, show.1@))
}

/// Every show-text operation of a content stream, with the font it draws
/// with, replaying `q`, `Q` and `Tf` from the start of the stream.
pub fn text_shows(ops: &[ContentOp]) -> (r: Vec<(usize, Vec<u8>)>)
    ensures
        shows_view(r@) == shows_upto(ops@, ops@.len()),
{
    let mut shows: Vec<(usize, Vec<u8>)> = Vec::new();
    let mut font: Vec<u8> = Vec::new();
    let mut saved: Vec<Vec<u8>> = Vec::new();
    let mut k: usize = 0;
    assert(font_names(saved@) =~= Seq::<Seq<u8>>::empty());
    assert(shows_view(shows@) =~= Seq::<(usize, Seq<u8>)>::empty());
    while k < ops.len()
        invariant
            k <= ops@.len(),
            (font@, font_names(saved@)) == font_state(ops@, k as nat),
            shows_view(shows@) == shows_upto(ops@, k as nat),
        decreases ops@.len() - k,
    {
        let ghost before_shows = shows@;
        let ghost before_saved = saved@;
        let operator = ops[k].operator.as_str();
        if same_text_of(operator, "Tj") || same_text_of(operator, "TJ") || same_text_of(operator, "'")
            || same_text_of(operator, "\"") {
            let entry = (k, copy_bytes(font.as_slice()));
            let ghost seen = (entry.0, entry.1@);
            shows.push(entry);
            assert(shows_view(shows@) =~= shows_view(before_shows).push(seen));
        }
        if same_text_of(operator, "q") {
            saved.push(copy_bytes(font.as_slice()));
            assert(font_names(saved@) =~= font_names(before_saved).push(font@));
        } else if same_text_of(operator, "Q") {
            if saved.len() > 0 {
                let restored = saved.pop().unwrap();
                assert(font_names(saved@) =~= font_names(before_saved).drop_last());
                assert(restored@ == font_names(before_saved).last());
                font = restored;
            }
        } else if same_text_of(operator, "Tf") {
            font = match ops[k].operands.first() {
                Some(PdfObject::Name(name)) => copy_bytes(name.as_slice()),
                _ => Vec::new(),
            };
        }
        k = k + 1;
    }
    shows
}

/// Where a text-state parameter was last set: the operation, and which of its
/// operands holds the value. `negated` is for the leading `TD` sets, which is
/// the negation of its second operand.
#[derive(Clone, Copy, Debug, PartialEq, Eq, Structural)]
pub struct OperandAt {
    pub operation: usize,
    pub operand: usize,
    pub negated: bool,
}

/// Where each text-state parameter in effect was set; `None` leaves it at its
/// initial value. The font's name is followed by [`text_shows`].
#[derive(Clone, Copy, Debug, PartialEq, Eq, Structural)]
pub struct TextParams {
    /// `Tf`'s second operand.
    pub size: Option<OperandAt>,
    /// `Tc`, or the second operand of `"`.
    pub char_spacing: Option<OperandAt>,
    /// `Tw`, or the first operand of `"`.
    pub word_spacing: Option<OperandAt>,
    /// `Tz`, in percent.
    pub horizontal_scale: Option<OperandAt>,
    /// `TL`, or the negated second operand of `TD`.
    pub leading: Option<OperandAt>,
    /// `Ts`.
    pub rise: Option<OperandAt>,
}

/// No parameter set yet.
pub open spec fn params_unset() -> TextParams {
    TextParams {
        size: None,
        char_spacing: None,
        word_spacing: None,
        horizontal_scale: None,
        leading: None,
        rise: None,
    }
}

/// Operand `operand` of operation `operation`, taken as it is.
pub open spec fn operand_at(operation: usize, operand: usize) -> Option<OperandAt> {
    Some(OperandAt { operation, operand, negated: false })
}

/// The parameters after operation `op`, the `k`-th, sets what it sets.
pub open spec fn params_applied(params: TextParams, op: ContentOp, k: usize) -> TextParams {
    let name = op.operator@;
    if name == "Tf"@ {
        TextParams { size: operand_at(k, 1), ..params }
    } else if name == "Tc"@ {
        TextParams { char_spacing: operand_at(k, 0), ..params }
    } else if name == "Tw"@ {
        TextParams { word_spacing: operand_at(k, 0), ..params }
    } else if name == "Tz"@ {
        TextParams { horizontal_scale: operand_at(k, 0), ..params }
    } else if name == "TL"@ {
        TextParams { leading: operand_at(k, 0), ..params }
    } else if name == "TD"@ {
        TextParams { leading: Some(OperandAt { operation: k, operand: 1, negated: true }), ..params }
    } else if name == "Ts"@ {
        TextParams { rise: operand_at(k, 0), ..params }
    } else if name == "\""@ {
        TextParams { word_spacing: operand_at(k, 0), char_spacing: operand_at(k, 1), ..params }
    } else {
        params
    }
}

/// The text state in effect, and the states `q` saved, after the first `n`
/// operations: the text state is part of the graphics state, so `q` saves it
/// and `Q` brings back the last one saved, where one was. `BT` and `ET` leave
/// it as it is.
pub open spec fn params_state(ops: Seq<ContentOp>, n: nat) -> (TextParams, Seq<TextParams>)
    decreases n,
{
    if n == 0 || n > ops.len() {
        (params_unset(), Seq::empty())
    } else {
        let (params, saved) = params_state(ops, (n - 1) as nat);
        let op = ops[n - 1];
        if op.operator@ == "q"@ {
            (params, saved.push(params))
        } else if op.operator@ == "Q"@ {
            if saved.len() > 0 {
                (saved.last(), saved.drop_last())
            } else {
                (params, saved)
            }
        } else {
            (params_applied(params, op, (n - 1) as usize), saved)
        }
    }
}

fn apply_params(params: TextParams, op: &ContentOp, k: usize) -> (r: TextParams)
    ensures
        r == params_applied(params, *op, k),
{
    let name = op.operator.as_str();
    let mut next = params;
    let plain = |operand: usize| -> (r: Option<OperandAt>)
        ensures
            r == operand_at(k, operand),
        { Some(OperandAt { operation: k, operand, negated: false }) };
    if same_text_of(name, "Tf") {
        next.size = plain(1);
    } else if same_text_of(name, "Tc") {
        next.char_spacing = plain(0);
    } else if same_text_of(name, "Tw") {
        next.word_spacing = plain(0);
    } else if same_text_of(name, "Tz") {
        next.horizontal_scale = plain(0);
    } else if same_text_of(name, "TL") {
        next.leading = plain(0);
    } else if same_text_of(name, "TD") {
        next.leading = Some(OperandAt { operation: k, operand: 1, negated: true });
    } else if same_text_of(name, "Ts") {
        next.rise = plain(0);
    } else if same_text_of(name, "\"") {
        next.word_spacing = plain(0);
        next.char_spacing = plain(1);
    }
    next
}

/// For each operation of a content stream, where the text-state parameters in
/// effect once it has run were set, replaying `q` and `Q` from the start of
/// the stream.
pub fn text_params_at(ops: &[ContentOp]) -> (r: Vec<TextParams>)
    ensures
        r@.len() == ops@.len(),
        forall|k: int| 0 <= k < ops@.len() ==> #[trigger] r@[k] == params_state(ops@, (k + 1) as nat).0,
{
    let mut states: Vec<TextParams> = Vec::new();
    let mut params = TextParams {
        size: None,
        char_spacing: None,
        word_spacing: None,
        horizontal_scale: None,
        leading: None,
        rise: None,
    };
    let mut saved: Vec<TextParams> = Vec::new();
    let mut k: usize = 0;
    while k < ops.len()
        invariant
            k <= ops@.len(),
            (params, saved@) == params_state(ops@, k as nat),
            states@.len() == k,
            forall|j: int| 0 <= j < k ==> #[trigger] states@[j] == params_state(ops@, (j + 1) as nat).0,
        decreases ops@.len() - k,
    {
        let operator = ops[k].operator.as_str();
        if same_text_of(operator, "q") {
            saved.push(params);
        } else if same_text_of(operator, "Q") {
            if saved.len() > 0 {
                params = saved.pop().unwrap();
            }
        } else {
            params = apply_params(params, &ops[k], k);
        }
        states.push(params);
        k = k + 1;
    }
    states
}

} // verus!
