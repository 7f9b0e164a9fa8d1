//! From the operations of a content stream to the steps by which its text is placed.
//!
//! An interpreter follows the operations of a page or a form: which text is shown, in which font,
//! and whether it can be seen. What is left to be done with each piece of text is arithmetic on
//! matrices. For that the interpreter hands out [`Step`]s, in order: changes of the matrices, and
//! the texts with the widths to advance by.

use crate::encodings::GlyphNames;
use crate::error::PdfError;
use crate::font_cmaps::{page_fonts, FontCMaps};
use crate::limits::{
    get_page_content, operations_of, page_content, parse_content, undo_filters, undone,
};
use crate::numbers::{is_nan, Number};
use crate::page_fonts::{
    find_named, font_model, last_named, lemma_last_named, lemma_none_named, shown_text, FontModel,
    PageFonts,
};
use crate::pdf::{
    dict_get, dictionary_at, document_objects, entry, find_page_fonts, get_stream, key,
    listed_fonts, listed_operations, object_value, object_values, resolve_dict, resolved_stream,
    shape_of, stream_parts, Entries, Objects, PdfValue, Shape,
};
use crate::resources::{
    form_fonts, get_form_fonts, get_number, get_number_or, get_page_xobjects, number_of, number_or,
    page_xobjects, xobject_contents, XObjectType,
};
use crate::text::{chars_of, is_at, lossy_text, string_of, text_from_utf8_lossy, trim, trimmed};
use crate::text_utils::{
    decode_text_string, expand_ligatures, is_bold_font, is_bold_name, is_italic_font,
    is_italic_name, lowercase_text, string_text, without_ligatures,
};
use crate::tounicode::codes_of;
use crate::widths::{
    build_font_widths, page_widths, string_width_units, width_contents, FontWidthInfo, UnitsScale,
    Widths,
};
use vstd::prelude::*;

verus! {

/// The six numbers of a transformation.
#[derive(Debug, Clone, Copy, PartialEq, Eq, Structural)]
pub struct Matrix {
    pub a: Number,
    pub b: Number,
    pub c: Number,
    pub d: Number,
    pub e: Number,
    pub f: Number,
}

/// How wide a string is: so many font units, and what a font unit is in text space.
#[derive(Debug, Clone, Copy, PartialEq, Eq, Structural)]
pub struct Run {
    pub units: u64,
    pub scale: UnitsScale,
}

/// What an element of a row of strings and numbers does to the position.
#[derive(Debug, Clone, Copy, PartialEq, Eq, Structural)]
pub enum Piece {
    /// It moves back by so many thousandths of the font size.
    Displacement(Number),
    /// It advances by the width of a string.
    Run(Run),
    /// It leaves the position as it is.
    Nothing,
}

/// A text that can be seen, and the style of its font.
#[derive(Debug, Clone)]
pub struct ShownText {
    pub text: String,
    pub font: String,
    pub is_bold: bool,
    pub is_italic: bool,
}

/// The contents of a [`ShownText`].
pub struct Shown {
    pub text: Seq<char>,
    pub font: Seq<char>,
    pub is_bold: bool,
    pub is_italic: bool,
}

impl View for ShownText {
    type V = Shown;

    open spec fn view(&self) -> Shown {
        Shown {
            text: self.text@,
            font: self.font@,
            is_bold: self.is_bold,
            is_italic: self.is_italic,
        }
    }
}

/// A text within a row of strings and numbers: it starts behind the first `start` elements and
/// ends behind the first `end`.
#[derive(Debug, Clone)]
pub struct Segment {
    pub shown: ShownText,
    pub start: usize,
    pub end: usize,
}

/// A step on the way to the texts of a page.
#[derive(Debug)]
pub enum Step {
    /// Save the transformation.
    Save,
    /// Go back to the transformation that was saved last.
    Restore,
    /// Put a transformation in front of the current one.
    Concat(Matrix),
    /// Reset the text matrix and the line matrix.
    ResetText,
    /// Set the font size.
    FontSize(Number),
    /// Set the distance between lines.
    Leading(Number),
    /// Move from the start of the line.
    MoveLine(Number, Number),
    /// Move from the start of the line, and set the distance between lines to the way down.
    MoveLineSetLeading(Number, Number),
    /// Move from the current position.
    MoveText(Number, Number),
    /// Set the text matrix and the line matrix.
    SetMatrix(Matrix),
    /// Move to the next line.
    NextLine,
    /// Advance by the width of a string that is not shown.
    Advance(Run),
    /// Show a text, then advance by its width where it is known.
    Show(ShownText, Option<Run>),
    /// Show texts within a row of strings and numbers. Where the widths of the font are known the
    /// position then advances by the whole row.
    ShowRow(Vec<Piece>, Vec<Segment>, bool),
    /// Draw a rectangle, given by a corner, its width and its height.
    Rectangle(Number, Number, Number, Number),
    /// Show the form with the given number.
    Form((u32, u16)),
    /// Keep the text matrix as the start of a text that is given in full.
    MarkStart,
    /// Show the text that was given in full from its start to here, unless it is blank.
    MarkEnd(Option<ShownText>),
}

/// The contents of a [`Step`].
pub enum StepModel {
    Save,
    Restore,
    Concat(Matrix),
    ResetText,
    FontSize(Number),
    Leading(Number),
    MoveLine(Number, Number),
    MoveLineSetLeading(Number, Number),
    MoveText(Number, Number),
    SetMatrix(Matrix),
    NextLine,
    Advance(Run),
    Show(Shown, Option<Run>),
    ShowRow(Seq<Piece>, Seq<(Shown, int, int)>, bool),
    Rectangle(Number, Number, Number, Number),
    Form((u32, u16)),
    MarkStart,
    MarkEnd(Option<Shown>),
}

/// Segments as they are held, as plain contents.
pub open spec fn segment_contents(list: Seq<Segment>) -> Seq<(Shown, int, int)> {
    list.map_values(|s: Segment| (s.shown@, s.start as int, s.end as int))
}

impl View for Step {
    type V = StepModel;

    open spec fn view(&self) -> StepModel {
        match *self {
            Step::Save => StepModel::Save,
            Step::Restore => StepModel::Restore,
            Step::Concat(m) => StepModel::Concat(m),
            Step::ResetText => StepModel::ResetText,
            Step::FontSize(n) => StepModel::FontSize(n),
            Step::Leading(n) => StepModel::Leading(n),
            Step::MoveLine(x, y) => StepModel::MoveLine(x, y),
            Step::MoveLineSetLeading(x, y) => StepModel::MoveLineSetLeading(x, y),
            Step::MoveText(x, y) => StepModel::MoveText(x, y),
            Step::SetMatrix(m) => StepModel::SetMatrix(m),
            Step::NextLine => StepModel::NextLine,
            Step::Advance(run) => StepModel::Advance(run),
            Step::Show(shown, run) => StepModel::Show(shown@, run),
            Step::ShowRow(pieces, segments, measured) => StepModel::ShowRow(
                pieces@,
                segment_contents(segments@),
                measured,
            ),
            Step::Rectangle(x, y, w, h) => StepModel::Rectangle(x, y, w, h),
            Step::Form(id) => StepModel::Form(id),
            Step::MarkStart => StepModel::MarkStart,
            Step::MarkEnd(shown) => StepModel::MarkEnd(
                match shown {
                    Some(s) => Some(s@),
                    None => None,
                },
            ),
        }
    }
}

/// Steps as they are held, as plain contents.
pub open spec fn step_contents(list: Seq<Step>) -> Seq<StepModel> {
    list.map_values(|s: Step| s@)
}

/// What the interpreter works with: the fonts and tables, the objects of the document, the images
/// and forms of the page, the widths of gaps that count as a space and as a gap between columns,
/// by font, and whether the content is that of a form.
pub struct Setting {
    pub fonts: FontModel,
    pub cmaps: FontCMaps,
    pub objects: Objects,
    pub xobjects: Seq<(Seq<char>, XObjectType)>,
    pub gaps: Seq<(Seq<char>, (u32, u32))>,
    pub in_form: bool,
}

/// What the interpreter keeps in mind.
pub struct Pen {
    /// The saved colours and modes: whether text was white, and whether it was hidden.
    pub saved: Seq<(bool, bool)>,
    /// Whether text is white.
    pub white: bool,
    /// Whether text is hidden by its rendering mode.
    pub hidden: bool,
    /// Whether a text block is open.
    pub in_text: bool,
    /// The name of the font.
    pub font: Seq<char>,
    /// The marked content that is open, each with the text that stands for it, if one is given.
    pub marks: Seq<Option<Seq<char>>>,
    /// Whether a text is given for marked content that is open.
    pub replaced: bool,
    /// Whether the start of such a text is being kept.
    pub mark_open: bool,
}

impl Pen {
    /// The state at the start of a content stream.
    pub open spec fn initial() -> Pen {
        Pen {
            saved: seq![],
            white: false,
            hidden: false,
            in_text: false,
            font: seq![],
            marks: seq![],
            replaced: false,
            mark_open: false,
        }
    }

    /// Whether text that is shown now cannot be seen, or is replaced by other text.
    pub open spec fn is_silent(self) -> bool {
        self.white || self.hidden || self.replaced
    }
}

/// The gaps that count as a space and as a gap between columns in a font without widths: 120 and
/// 480 thousandths of the font size, by their bits.
pub open spec fn usual_gaps() -> (u32, u32) {
    (0x42F0_0000, 0x43F0_0000)
}

impl Setting {
    /// The gaps that count in a font.
    pub open spec fn gaps_of(self, font: Seq<char>) -> (u32, u32) {
        match last_named(self.gaps, font) {
            Some(g) => g,
            None => usual_gaps(),
        }
    }

    /// How wide a string is in a font, where the font's widths are known.
    pub open spec fn run_of(self, font: Seq<char>, bytes: Seq<u8>) -> Option<Run> {
        match last_named(self.fonts.widths, font) {
            Some(widths) => Some(
                Run { units: units_of(widths, bytes), scale: widths.units_scale },
            ),
            None => None,
        }
    }

    /// The text of a string in a font.
    pub open spec fn text_of(self, font: Seq<char>, bytes: Seq<u8>) -> Seq<char> {
        shown_text(self.fonts, self.cmaps, self.objects, font, bytes)
    }

    /// A text in a font, with the style that the font's base name tells.
    pub open spec fn styled(self, font: Seq<char>, text: Seq<char>) -> Shown {
        let base = match last_named(self.fonts.base_names, font) {
            Some(b) => b,
            None => font,
        };
        Shown {
            text,
            font,
            is_bold: is_bold_name(lowercase_text(base)),
            is_italic: is_italic_name(lowercase_text(base)),
        }
    }
}

/// The width of a string in font units, as far as 64 bits go.
pub open spec fn units_of(widths: Widths, bytes: Seq<u8>) -> u64 {
    let total = widths.total(
        codes_of(
            bytes,
            if widths.is_cid {
                2u8
            } else {
                1u8
            },
        ),
    );
    if total <= u64::MAX {
        total as u64
    } else {
        u64::MAX
    }
}

/// Whether a text is blank.
pub open spec fn is_blank(text: Seq<char>) -> bool {
    trimmed(text).len() == 0
}

/// The step that advances by a width, where it is known.
pub open spec fn advance(run: Option<Run>) -> Seq<StepModel> {
    match run {
        Some(r) => seq![StepModel::Advance(r)],
        None => seq![],
    }
}

/// The steps for a string that is shown.
pub open spec fn show_string(setting: Setting, pen: Pen, operand: PdfValue) -> Seq<StepModel> {
    match operand {
        PdfValue::Text(bytes) => {
            let run = setting.run_of(pen.font, bytes);
            let text = setting.text_of(pen.font, bytes);
            if pen.is_silent() || is_blank(text) {
                advance(run)
            } else {
                seq![StepModel::Show(setting.styled(pen.font, without_ligatures(text)), run)]
            }
        },
        _ => seq![],
    }
}

/// What an element of a row does to the position.
pub open spec fn piece_of(setting: Setting, font: Seq<char>, element: PdfValue) -> Piece {
    match element {
        PdfValue::Integer(i) => Piece::Displacement(Number::Integer(i)),
        PdfValue::Real(bits) => Piece::Displacement(Number::Real(bits)),
        PdfValue::Text(bytes) => match setting.run_of(font, bytes) {
            Some(run) => Piece::Run(run),
            None => Piece::Nothing,
        },
        _ => Piece::Nothing,
    }
}

/// The texts of a row so far: those that are complete, with the elements at which they start and
/// end, and the one that is being put together, with its start.
pub struct RowText {
    pub done: Seq<(Seq<char>, int, int)>,
    pub text: Seq<char>,
    pub start: int,
}

/// The texts of the first `n` elements of a row that can be seen. A wide gap ends a text; a lesser
/// one is a space.
pub open spec fn row_text(
    setting: Setting,
    font: Seq<char>,
    row: Seq<PdfValue>,
    n: int,
) -> RowText
    decreases n,
{
    if n <= 0 {
        RowText { done: seq![], text: seq![], start: 0 }
    } else {
        let before = row_text(setting, font, row, n - 1);
        let gaps = setting.gaps_of(font);
        match row[n - 1] {
            PdfValue::Integer(_) | PdfValue::Real(_) => {
                let number = number_of(row[n - 1])->0;
                if before.text.len() > 0 && number.is_below_minus(gaps.1) {
                    RowText {
                        done: before.done.push((before.text, before.start, n - 1)),
                        text: seq![],
                        start: n,
                    }
                } else if before.text.len() > 0 && number.is_below_minus(gaps.0)
                    && before.text.last() != ' ' {
                    RowText { text: before.text.push(' '), ..before }
                } else {
                    before
                }
            },
            PdfValue::Text(bytes) => RowText {
                text: before.text + setting.text_of(font, bytes),
                ..before
            },
            _ => before,
        }
    }
}

/// The complete texts of a row. What is left at its end counts unless it is blank.
pub open spec fn row_segments(setting: Setting, font: Seq<char>, row: Seq<PdfValue>) -> Seq<
    (Seq<char>, int, int),
> {
    let end = row_text(setting, font, row, row.len() as int);
    if is_blank(end.text) {
        end.done
    } else {
        end.done.push((end.text, end.start, row.len() as int))
    }
}

/// The texts of a row with their style.
pub open spec fn styled_segments(
    setting: Setting,
    font: Seq<char>,
    segments: Seq<(Seq<char>, int, int)>,
) -> Seq<(Shown, int, int)> {
    segments.map_values(
        |s: (Seq<char>, int, int)| (setting.styled(font, without_ligatures(s.0)), s.1, s.2),
    )
}

/// The steps for a row of strings and numbers that is shown.
pub open spec fn show_row(setting: Setting, pen: Pen, operand: PdfValue) -> Seq<StepModel> {
    match operand {
        PdfValue::Array(row) => {
            let measured = last_named(setting.fonts.widths, pen.font) is Some;
            let segments = if pen.is_silent() {
                seq![]
            } else {
                row_segments(setting, pen.font, row)
            };
            if measured || segments.len() > 0 {
                seq![
                    StepModel::ShowRow(
                        row.map_values(|e: PdfValue| piece_of(setting, pen.font, e)),
                        styled_segments(setting, pen.font, segments),
                        measured,
                    ),
                ]
            } else {
                seq![]
            }
        },
        _ => seq![],
    }
}

/// The transformation that six operands give.
pub open spec fn matrix_of(operands: Seq<PdfValue>) -> Matrix {
    Matrix {
        a: number_or(operands[0], 1),
        b: number_or(operands[1], 0),
        c: number_or(operands[2], 0),
        d: number_or(operands[3], 1),
        e: number_or(operands[4], 0),
        f: number_or(operands[5], 0),
    }
}

/// The text that the properties of marked content give for it.
pub open spec fn replacement(objects: Objects, operands: Seq<PdfValue>) -> Option<Seq<char>> {
    if operands.len() >= 2 {
        match dictionary_at(objects, operands[1]) {
            Some(properties) => match entry(properties, key("ActualText")) {
                Some(PdfValue::Text(bytes)) => Some(string_text(bytes)),
                _ => None,
            },
            None => None,
        }
    } else {
        None
    }
}

/// Whether a text is given for marked content that is open.
pub open spec fn any_replaced(marks: Seq<Option<Seq<char>>>) -> bool {
    exists|i: int| 0 <= i < marks.len() && (#[trigger] marks[i]) is Some
}

/// The effect of an operation that sets the colour of text, in either kind of content.
pub open spec fn after_colour(pen: Pen, operator: Seq<char>, operands: Seq<PdfValue>) -> Pen {
    if operator == "g"@ {
        if operands.len() > 0 && number_of(operands[0]) is Some {
            Pen { white: number_of(operands[0])->0.is_about_one(), ..pen }
        } else {
            pen
        }
    } else if operator == "rg"@ {
        if operands.len() >= 3 {
            Pen {
                white: number_or(operands[0], 0).is_about_one() && number_or(
                    operands[1],
                    0,
                ).is_about_one() && number_or(operands[2], 0).is_about_one(),
                ..pen
            }
        } else {
            pen
        }
    } else if operands.len() >= 4 {
        Pen {
            white: number_or(operands[0], 1).is_about_zero() && number_or(
                operands[1],
                1,
            ).is_about_zero() && number_or(operands[2], 1).is_about_zero() && number_or(
                operands[3],
                1,
            ).is_about_zero(),
            ..pen
        }
    } else {
        pen
    }
}

/// The effect of an operation that sets the font. In a form the size is 12 where it is no number.
pub open spec fn after_font(pen: Pen, operands: Seq<PdfValue>, in_form: bool) -> (
    Pen,
    Seq<StepModel>,
) {
    if operands.len() >= 2 {
        (
            match operands[0] {
                PdfValue::Name(name) => Pen { font: lossy_text(name), ..pen },
                _ => pen,
            },
            if in_form {
                seq![StepModel::FontSize(number_or(operands[1], 12))]
            } else {
                match number_of(operands[1]) {
                    Some(size) => seq![StepModel::FontSize(size)],
                    None => seq![],
                }
            },
        )
    } else {
        (pen, seq![])
    }
}

/// The effect of the end of marked content.
pub open spec fn after_mark_end(setting: Setting, pen: Pen) -> (Pen, Seq<StepModel>) {
    if pen.marks.len() == 0 {
        (pen, seq![])
    } else {
        let marks = pen.marks.drop_last();
        match pen.marks.last() {
            Some(text) => (
                Pen { marks, replaced: any_replaced(marks), mark_open: false, ..pen },
                if pen.mark_open {
                    seq![
                        StepModel::MarkEnd(
                            if is_blank(text) {
                                None
                            } else {
                                Some(setting.styled(pen.font, text))
                            },
                        ),
                    ]
                } else {
                    seq![]
                },
            ),
            None => (Pen { marks, ..pen }, seq![]),
        }
    }
}

/// The effect of an operation that a page and a form have in common.
pub open spec fn after_common(
    setting: Setting,
    pen: Pen,
    operator: Seq<char>,
    operands: Seq<PdfValue>,
) -> (Pen, Seq<StepModel>) {
    if operator == "g"@ || operator == "rg"@ || operator == "k"@ {
        (after_colour(pen, operator, operands), seq![])
    } else if operator == "BT"@ {
        (Pen { in_text: true, hidden: false, ..pen }, seq![StepModel::ResetText])
    } else if operator == "ET"@ {
        (Pen { in_text: false, ..pen }, seq![])
    } else if operator == "Tf"@ {
        after_font(pen, operands, setting.in_form)
    } else if operator == "Td"@ || operator == "TD"@ {
        (
            pen,
            if operands.len() >= 2 {
                let x = number_or(operands[0], 0);
                let y = number_or(operands[1], 0);
                if setting.in_form {
                    seq![StepModel::MoveText(x, y)]
                } else if operator == "TD"@ {
                    seq![StepModel::MoveLineSetLeading(x, y)]
                } else {
                    seq![StepModel::MoveLine(x, y)]
                }
            } else {
                seq![]
            },
        )
    } else if operator == "Tm"@ {
        (
            pen,
            if operands.len() >= 6 {
                seq![StepModel::SetMatrix(matrix_of(operands))]
            } else {
                seq![]
            },
        )
    } else if operator == "Tj"@ {
        (
            pen,
            if pen.in_text && operands.len() > 0 {
                show_string(setting, pen, operands[0])
            } else {
                seq![]
            },
        )
    } else if operator == "TJ"@ {
        (
            pen,
            if pen.in_text && operands.len() > 0 {
                show_row(setting, pen, operands[0])
            } else {
                seq![]
            },
        )
    } else {
        (pen, seq![])
    }
}

/// The effect of an operation on a page.
pub open spec fn after_operation(
    setting: Setting,
    pen: Pen,
    operator: Seq<char>,
    operands: Seq<PdfValue>,
) -> (Pen, Seq<StepModel>) {
    if setting.in_form {
        after_common(setting, pen, operator, operands)
    } else if operator == "q"@ {
        (Pen { saved: pen.saved.push((pen.white, pen.hidden)), ..pen }, seq![StepModel::Save])
    } else if operator == "Q"@ {
        if pen.saved.len() > 0 {
            (
                Pen {
                    saved: pen.saved.drop_last(),
                    white: pen.saved.last().0,
                    hidden: pen.saved.last().1,
                    ..pen
                },
                seq![StepModel::Restore],
            )
        } else {
            (pen, seq![])
        }
    } else if operator == "cm"@ {
        (
            pen,
            if operands.len() >= 6 {
                seq![StepModel::Concat(matrix_of(operands))]
            } else {
                seq![]
            },
        )
    } else if operator == "re"@ {
        (
            pen,
            if operands.len() >= 4 {
                seq![
                    StepModel::Rectangle(
                        number_or(operands[0], 0),
                        number_or(operands[1], 0),
                        number_or(operands[2], 0),
                        number_or(operands[3], 0),
                    ),
                ]
            } else {
                seq![]
            },
        )
    } else if operator == "TL"@ {
        (
            pen,
            if operands.len() > 0 && number_of(operands[0]) is Some {
                seq![StepModel::Leading(number_of(operands[0])->0)]
            } else {
                seq![]
            },
        )
    } else if operator == "Tr"@ {
        (
            if operands.len() > 0 && number_of(operands[0]) is Some {
                Pen { hidden: number_of(operands[0])->0.is_three(), ..pen }
            } else {
                pen
            },
            seq![],
        )
    } else if operator == "T*"@ {
        (pen, seq![StepModel::NextLine])
    } else if operator == "'"@ {
        (pen, seq![StepModel::NextLine] + show_quoted(setting, pen, operands))
    } else if operator == "Do"@ {
        (pen, placed_form(setting, operands))
    } else if operator == "BMC"@ {
        (Pen { marks: pen.marks.push(None), ..pen }, seq![])
    } else if operator == "BDC"@ {
        match replacement(setting.objects, operands) {
            Some(text) => (
                Pen { marks: pen.marks.push(Some(text)), replaced: true, mark_open: true, ..pen },
                seq![StepModel::MarkStart],
            ),
            None => (Pen { marks: pen.marks.push(None), ..pen }, seq![]),
        }
    } else if operator == "EMC"@ {
        after_mark_end(setting, pen)
    } else {
        after_common(setting, pen, operator, operands)
    }
}

/// The step for a string that is shown on a new line. It does not advance the position.
pub open spec fn show_quoted(setting: Setting, pen: Pen, operands: Seq<PdfValue>) -> Seq<
    StepModel,
> {
    if operands.len() == 0 || pen.is_silent() {
        seq![]
    } else {
        match operands[0] {
            PdfValue::Text(bytes) => {
                let text = setting.text_of(pen.font, bytes);
                if is_blank(text) {
                    seq![]
                } else {
                    seq![StepModel::Show(setting.styled(pen.font, without_ligatures(text)), None)]
                }
            },
            _ => seq![],
        }
    }
}

/// The step for an XObject that is placed on the page: a form is shown, an image is passed over.
pub open spec fn placed_form(setting: Setting, operands: Seq<PdfValue>) -> Seq<StepModel> {
    if operands.len() == 0 {
        seq![]
    } else {
        match operands[0] {
            PdfValue::Name(name) => match last_named(setting.xobjects, lossy_text(name)) {
                Some(XObjectType::Form(id)) => seq![StepModel::Form(id)],
                _ => seq![],
            },
            _ => seq![],
        }
    }
}

/// The state and the steps after the first `n` operations.
pub open spec fn after_operations(
    setting: Setting,
    operations: Seq<(Seq<char>, Seq<PdfValue>)>,
    n: int,
) -> (Pen, Seq<StepModel>)
    decreases n,
{
    if n <= 0 {
        (Pen::initial(), seq![])
    } else {
        let before = after_operations(setting, operations, n - 1);
        let now = after_operation(
            setting,
            before.0,
            operations[n - 1].0,
            operations[n - 1].1,
        );
        (now.0, before.1 + now.1)
    }
}

// ---------------------------------------------------------------------------------------------
// The interpreter
// ---------------------------------------------------------------------------------------------

/// Marks as they are held, as plain contents.
pub open spec fn mark_contents(list: Seq<Option<Vec<char>>>) -> Seq<Option<Seq<char>>> {
    list.map_values(
        |m: Option<Vec<char>>|
            match m {
                Some(t) => Some(t@),
                None => None,
            },
    )
}

/// What the interpreter keeps in mind, as it is held.
struct PenState {
    saved: Vec<(bool, bool)>,
    white: bool,
    hidden: bool,
    in_text: bool,
    font: Vec<char>,
    marks: Vec<Option<Vec<char>>>,
    replaced: bool,
    mark_open: bool,
}

impl View for PenState {
    type V = Pen;

    closed spec fn view(&self) -> Pen {
        Pen {
            saved: self.saved@,
            white: self.white,
            hidden: self.hidden,
            in_text: self.in_text,
            font: self.font@,
            marks: mark_contents(self.marks@),
            replaced: self.replaced,
            mark_open: self.mark_open,
        }
    }
}

impl PenState {
    /// The state at the start of a content stream.
    fn new() -> (r: PenState)
        ensures
            r@ == Pen::initial(),
    {
        let r = PenState {
            saved: Vec::new(),
            white: false,
            hidden: false,
            in_text: false,
            font: Vec::new(),
            marks: Vec::new(),
            replaced: false,
            mark_open: false,
        };
        assert(mark_contents(r.marks@) =~= seq![]);
        assert(r.saved@ =~= seq![]);
        assert(r.font@ =~= seq![]);
        r
    }

    /// Whether text that is shown now cannot be seen, or is replaced by other text.
    fn silent(&self) -> (r: bool)
        ensures
            r == self@.is_silent(),
    {
        self.white || self.hidden || self.replaced
    }
}

/// Gaps as they are held, as plain contents.
pub open spec fn gap_contents(list: Seq<(Vec<char>, (u32, u32))>) -> Seq<(Seq<char>, (u32, u32))> {
    list.map_values(|e: (Vec<char>, (u32, u32))| (e.0@, e.1))
}

/// Whether each gap is a number that is not negative.
pub open spec fn are_gaps(list: Seq<(Vec<char>, (u32, u32))>) -> bool {
    forall|i: int|
        0 <= i < list.len() ==> (#[trigger] list[i]).1.0 < 0x8000_0000 && list[i].1.1 < 0x8000_0000
            && !is_nan(list[i].1.0) && !is_nan(list[i].1.1)
}

/// What the interpreter works with, as it is held.
struct Desk<'a> {
    doc: &'a lopdf::Document,
    fonts: &'a PageFonts<'a>,
    cmaps: &'a FontCMaps,
    xobjects: &'a Vec<(Vec<char>, XObjectType)>,
    gaps: &'a Vec<(Vec<char>, (u32, u32))>,
    in_form: bool,
    model: Ghost<FontModel>,
}

impl<'a> Desk<'a> {
    /// What the interpreter works with.
    spec fn setting(self) -> Setting {
        Setting {
            fonts: self.model@,
            cmaps: *self.cmaps,
            objects: document_objects(*self.doc),
            xobjects: xobject_contents(self.xobjects@),
            gaps: gap_contents(self.gaps@),
            in_form: self.in_form,
        }
    }

    /// What is held of the fonts is what there is to know, and tables and gaps can be used.
    spec fn wf(self) -> bool {
        &&& self.fonts.holds(self.model@, document_objects(*self.doc))
        &&& self.cmaps.wf()
        &&& are_gaps(self.gaps@)
    }

    /// The gaps that count in a font.
    fn gaps_of(&self, font: &[char]) -> (r: (u32, u32))
        requires
            self.wf(),
        ensures
            r == self.setting().gaps_of(font@),
            r.0 < 0x8000_0000 && r.1 < 0x8000_0000 && !is_nan(r.0) && !is_nan(r.1),
    {
        let ghost contents = gap_contents(self.gaps@);
        match find_named(self.gaps, font) {
            Some(i) => {
                proof {
                    assert forall|k: int| i < k < contents.len() implies (
                    #[trigger] contents[k]).0 != font@ by {
                        assert(contents[k].0 == self.gaps@[k].0@);
                    }
                    lemma_last_named(contents, font@, i as int);
                }
                let g: (u32, u32) = self.gaps[i].1;
                assert(self.gaps@[i as int].1 == g);
                g
            },
            None => {
                proof {
                    assert forall|k: int| 0 <= k < contents.len() implies (
                    #[trigger] contents[k]).0 != font@ by {
                        assert(contents[k].0 == self.gaps@[k].0@);
                    }
                    lemma_none_named(contents, font@);
                }
                (0x42F0_0000, 0x43F0_0000)
            },
        }
    }

    /// How wide a string is in a font.
    fn run_of(&self, font: &[char], bytes: &[u8]) -> (r: Option<Run>)
        requires
            self.wf(),
        ensures
            r == self.setting().run_of(font@, bytes@),
    {
        match self.fonts.widths_of(font) {
            Some(info) => Some(
                Run { units: string_width_units(bytes, info), scale: info.units_scale },
            ),
            None => None,
        }
    }

    /// The text of a string in a font.
    fn text_of(&self, font: &[char], bytes: &[u8]) -> (r: Vec<char>)
        requires
            self.wf(),
        ensures
            r@ == self.setting().text_of(font@, bytes@),
    {
        self.fonts.decode_string(
            font,
            bytes,
            self.cmaps,
            self.model,
            Ghost(document_objects(*self.doc)),
        )
    }

    /// A text in a font, with the style that the font's base name tells.
    fn styled(&self, font: &[char], text: String) -> (r: ShownText)
        requires
            self.wf(),
        ensures
            r@ == self.setting().styled(font@, text@),
    {
        let base = string_of(self.fonts.base_name_of(font).as_slice());
        ShownText {
            text,
            font: string_of(font),
            is_bold: is_bold_font(base.as_str()),
            is_italic: is_italic_font(base.as_str()),
        }
    }

    /// A text in a font with its ligatures taken apart.
    fn styled_apart(&self, font: &[char], text: &[char]) -> (r: ShownText)
        requires
            self.wf(),
        ensures
            r@ == self.setting().styled(font@, without_ligatures(text@)),
    {
        let text = expand_ligatures(string_of(text).as_str());
        self.styled(font, text)
    }

    /// Shows a string.
    fn show_string(&self, pen: &PenState, operand: &lopdf::Object, steps: &mut Vec<Step>)
        requires
            self.wf(),
        ensures
            step_contents(final(steps)@) == step_contents(old(steps)@) + show_string(
                self.setting(),
                pen@,
                object_value(*operand),
            ),
    {
        let ghost before = step_contents(steps@);
        match shape_of(operand) {
            Shape::Text(bytes) => {
                let font = pen.font.as_slice();
                let run = self.run_of(font, bytes.as_slice());
                let text = self.text_of(font, bytes.as_slice());
                if pen.silent() || trim(text.as_slice()).len() == 0 {
                    match run {
                        Some(r) => {
                            steps.push(Step::Advance(r));
                            assert(step_contents(steps@) =~= before + advance(run));
                        },
                        None => {
                            assert(step_contents(steps@) =~= before + advance(run));
                        },
                    }
                } else {
                    let shown = self.styled_apart(font, text.as_slice());
                    let ghost added = StepModel::Show(shown@, run);
                    steps.push(Step::Show(shown, run));
                    assert(step_contents(steps@) =~= before + seq![added]);
                }
            },
            _ => {
                assert(step_contents(steps@) =~= before + seq![]);
            },
        }
    }

    /// What an element of a row does to the position.
    fn piece_of(&self, font: &[char], element: &lopdf::Object) -> (r: Piece)
        requires
            self.wf(),
        ensures
            r == piece_of(self.setting(), font@, object_value(*element)),
    {
        match shape_of(element) {
            Shape::Integer(i) => Piece::Displacement(Number::Integer(i)),
            Shape::Real(bits) => Piece::Displacement(Number::Real(bits)),
            Shape::Text(bytes) => match self.run_of(font, bytes.as_slice()) {
                Some(run) => Piece::Run(run),
                None => Piece::Nothing,
            },
            _ => Piece::Nothing,
        }
    }

    /// What the elements of a row do to the position.
    fn pieces_of(&self, font: &[char], row: &Vec<lopdf::Object>) -> (r: Vec<Piece>)
        requires
            self.wf(),
        ensures
            r@ == object_values(row@).map_values(
                |e: PdfValue| piece_of(self.setting(), font@, e),
            ),
    {
        let ghost all = object_values(row@).map_values(
            |e: PdfValue| piece_of(self.setting(), font@, e),
        );
        let mut out: Vec<Piece> = Vec::new();
        let mut i: usize = 0;
        while i < row.len()
            invariant
                self.wf(),
                i <= row@.len(),
                all == object_values(row@).map_values(
                    |e: PdfValue| piece_of(self.setting(), font@, e),
                ),
                out@ == all.take(i as int),
            decreases row@.len() - i,
        {
            out.push(self.piece_of(font, &row[i]));
            i = i + 1;
            assert(out@ =~= all.take(i as int));
        }
        assert(out@ =~= all);
        out
    }

    /// The texts of a row that can be seen.
    fn segments_of(&self, font: &[char], row: &Vec<lopdf::Object>) -> (r: Vec<Segment>)
        requires
            self.wf(),
        ensures
            segment_contents(r@) == styled_segments(
                self.setting(),
                font@,
                row_segments(self.setting(), font@, object_values(row@)),
            ),
    {
        let ghost setting = self.setting();
        let ghost list = object_values(row@);
        let (space, column) = self.gaps_of(font);
        let mut out: Vec<Segment> = Vec::new();
        let mut text: Vec<char> = Vec::new();
        let mut start: usize = 0;
        let mut i: usize = 0;
        assert(segment_contents(out@) =~= styled_segments(setting, font@, seq![]));
        assert(text@ =~= seq![]);
        while i < row.len()
            invariant
                self.wf(),
                setting == self.setting(),
                list == object_values(row@),
                (space, column) == setting.gaps_of(font@),
                space < 0x8000_0000 && column < 0x8000_0000 && !is_nan(space) && !is_nan(column),
                i <= row@.len(),
                start <= i,
                text@ == row_text(setting, font@, list, i as int).text,
                start == row_text(setting, font@, list, i as int).start,
                segment_contents(out@) == styled_segments(
                    setting,
                    font@,
                    row_text(setting, font@, list, i as int).done,
                ),
            decreases row@.len() - i,
        {
            let ghost so_far = row_text(setting, font@, list, i as int);
            let ghost contents = segment_contents(out@);
            assert(list[i as int] == object_value(row@[i as int]));
            match shape_of(&row[i]) {
                Shape::Text(bytes) => {
                    let mut more = self.text_of(font, bytes.as_slice());
                    text.append(&mut more);
                },
                Shape::Integer(_) | Shape::Real(_) => {
                    let number = get_number_or(&row[i], 0);
                    if text.len() > 0 && number.below_minus(column) {
                        let shown = self.styled_apart(font, text.as_slice());
                        let ghost added = (shown@, start as int, i as int);
                        out.push(Segment { shown, start, end: i });
                        assert(segment_contents(out@) =~= contents.push(added));
                        assert(styled_segments(
                            setting,
                            font@,
                            so_far.done.push((so_far.text, so_far.start, i as int)),
                        ) =~= styled_segments(setting, font@, so_far.done).push(added));
                        text = Vec::new();
                        assert(text@ =~= seq![]);
                        start = i + 1;
                    } else if text.len() > 0 && number.below_minus(space) && text[text.len() - 1]
                        != ' ' {
                        text.push(' ');
                    }
                },
                _ => {},
            }
            i = i + 1;
        }
        let ghost end = row_text(setting, font@, list, list.len() as int);
        if trim(text.as_slice()).len() > 0 {
            let ghost contents = segment_contents(out@);
            let shown = self.styled_apart(font, text.as_slice());
            let ghost added = (shown@, start as int, i as int);
            out.push(Segment { shown, start, end: i });
            assert(segment_contents(out@) =~= contents.push(added));
            assert(styled_segments(
                setting,
                font@,
                end.done.push((end.text, end.start, list.len() as int)),
            ) =~= styled_segments(setting, font@, end.done).push(added));
        }
        out
    }

    /// Shows a row of strings and numbers.
    fn show_row(&self, pen: &PenState, operand: &lopdf::Object, steps: &mut Vec<Step>)
        requires
            self.wf(),
        ensures
            step_contents(final(steps)@) == step_contents(old(steps)@) + show_row(
                self.setting(),
                pen@,
                object_value(*operand),
            ),
    {
        let ghost before = step_contents(steps@);
        match shape_of(operand) {
            Shape::Array(row) => {
                let font = pen.font.as_slice();
                let measured: bool = self.fonts.widths_of(font).is_some();
                let segments: Vec<Segment> = if pen.silent() {
                    Vec::new()
                } else {
                    self.segments_of(font, row)
                };
                assert(pen@.is_silent() ==> segment_contents(segments@) =~= styled_segments(
                    self.setting(),
                    pen@.font,
                    seq![],
                ));
                let ghost texts = if pen@.is_silent() {
                    seq![]
                } else {
                    row_segments(self.setting(), pen@.font, object_values(row@))
                };
                assert(segment_contents(segments@) == styled_segments(
                    self.setting(),
                    pen@.font,
                    texts,
                ));
                assert(segments@.len() == texts.len());
                if measured || segments.len() > 0 {
                    let pieces = self.pieces_of(font, row);
                    assert(pieces@ =~= object_values(row@).map_values(
                        |e: PdfValue| piece_of(self.setting(), pen@.font, e),
                    ));
                    let ghost added = StepModel::ShowRow(
                        pieces@,
                        segment_contents(segments@),
                        measured,
                    );
                    steps.push(Step::ShowRow(pieces, segments, measured));
                    assert(step_contents(steps@) =~= before + seq![added]);
                } else {
                    assert(step_contents(steps@) =~= before + seq![]);
                }
            },
            _ => {
                assert(step_contents(steps@) =~= before + seq![]);
            },
        }
    }

    /// Shows a string on a new line.
    fn show_quoted(&self, pen: &PenState, operands: &Vec<lopdf::Object>, steps: &mut Vec<Step>)
        requires
            self.wf(),
        ensures
            step_contents(final(steps)@) == step_contents(old(steps)@) + show_quoted(
                self.setting(),
                pen@,
                object_values(operands@),
            ),
    {
        let ghost before = step_contents(steps@);
        if operands.len() > 0 && !pen.silent() {
            assert(object_values(operands@)[0] == object_value(operands@[0]));
            match shape_of(&operands[0]) {
                Shape::Text(bytes) => {
                    let font = pen.font.as_slice();
                    let text = self.text_of(font, bytes.as_slice());
                    if trim(text.as_slice()).len() > 0 {
                        let shown = self.styled_apart(font, text.as_slice());
                        let ghost added = StepModel::Show(shown@, None);
                        steps.push(Step::Show(shown, None));
                        assert(step_contents(steps@) =~= before + seq![added]);
                        return ;
                    }
                },
                _ => {},
            }
        }
        assert(step_contents(steps@) =~= before + seq![]);
    }

    /// Places an XObject.
    fn place(&self, operands: &Vec<lopdf::Object>, steps: &mut Vec<Step>)
        requires
            self.wf(),
        ensures
            step_contents(final(steps)@) == step_contents(old(steps)@) + placed_form(
                self.setting(),
                object_values(operands@),
            ),
    {
        let ghost before = step_contents(steps@);
        let ghost contents = xobject_contents(self.xobjects@);
        if operands.len() > 0 {
            assert(object_values(operands@)[0] == object_value(operands@[0]));
            match shape_of(&operands[0]) {
                Shape::Name(bytes) => {
                    let name = chars_of(text_from_utf8_lossy(bytes.as_slice()).as_str());
                    match find_named(self.xobjects, name.as_slice()) {
                        Some(i) => {
                            proof {
                                assert forall|k: int| i < k < contents.len() implies (
                                #[trigger] contents[k]).0 != name@ by {
                                    assert(contents[k].0 == self.xobjects@[k].0@);
                                }
                                lemma_last_named(contents, name@, i as int);
                            }
                            match self.xobjects[i].1 {
                                XObjectType::Form(id) => {
                                    steps.push(Step::Form(id));
                                    assert(step_contents(steps@) =~= before + seq![
                                        StepModel::Form(id),
                                    ]);
                                    return ;
                                },
                                _ => {},
                            }
                        },
                        None => {
                            proof {
                                assert forall|k: int| 0 <= k < contents.len() implies (
                                #[trigger] contents[k]).0 != name@ by {
                                    assert(contents[k].0 == self.xobjects@[k].0@);
                                }
                                lemma_none_named(contents, name@);
                            }
                        },
                    }
                },
                _ => {},
            }
        }
        assert(step_contents(steps@) =~= before + seq![]);
    }
}

/// Whether a text is the given word.
pub fn is_word(s: &[char], word: &str) -> (r: bool)
    ensures
        r == (s@ == word@),
{
    let r: bool = s.len() == word.unicode_len() && is_at(s, word, 0);
    assert(s@.len() == word@.len() ==> s@.subrange(0, word@.len() as int) =~= s@);
    r
}

/// The transformation that six operands give.
fn read_matrix(operands: &Vec<lopdf::Object>) -> (r: Matrix)
    requires
        operands@.len() >= 6,
    ensures
        r == matrix_of(object_values(operands@)),
{
    assert forall|k: int| 0 <= k < 6 implies #[trigger] object_values(operands@)[k] == object_value(
        operands@[k],
    ) by {}
    Matrix {
        a: get_number_or(&operands[0], 1),
        b: get_number_or(&operands[1], 0),
        c: get_number_or(&operands[2], 0),
        d: get_number_or(&operands[3], 1),
        e: get_number_or(&operands[4], 0),
        f: get_number_or(&operands[5], 0),
    }
}

/// The number that the first operand is.
fn first_number(operands: &Vec<lopdf::Object>) -> (r: Option<Number>)
    ensures
        r == if operands@.len() > 0 {
            number_of(object_values(operands@)[0])
        } else {
            None
        },
{
    if operands.len() > 0 {
        assert(object_values(operands@)[0] == object_value(operands@[0]));
        get_number(&operands[0])
    } else {
        None
    }
}

impl PenState {
    /// Sets the colour of text.
    fn set_colour(&mut self, operator: &[char], operands: &Vec<lopdf::Object>)
        ensures
            final(self)@ == after_colour(old(self)@, operator@, object_values(operands@)),
    {
        assert forall|k: int|
            0 <= k < operands@.len() implies #[trigger] object_values(operands@)[k] == object_value(
            operands@[k],
        ) by {}
        if is_word(operator, "g") {
            match first_number(operands) {
                Some(gray) => {
                    self.white = gray.about_one();
                },
                None => {},
            }
        } else if is_word(operator, "rg") {
            if operands.len() >= 3 {
                self.white = get_number_or(&operands[0], 0).about_one() && get_number_or(
                    &operands[1],
                    0,
                ).about_one() && get_number_or(&operands[2], 0).about_one();
            }
        } else if operands.len() >= 4 {
            self.white = get_number_or(&operands[0], 1).about_zero() && get_number_or(
                &operands[1],
                1,
            ).about_zero() && get_number_or(&operands[2], 1).about_zero() && get_number_or(
                &operands[3],
                1,
            ).about_zero();
        }
    }

    /// Sets the font.
    fn set_font(&mut self, operands: &Vec<lopdf::Object>, in_form: bool, steps: &mut Vec<Step>)
        ensures
            (final(self)@, step_contents(final(steps)@)) == ({
                let now = after_font(old(self)@, object_values(operands@), in_form);
                (now.0, step_contents(old(steps)@) + now.1)
            }),
    {
        let ghost before = step_contents(steps@);
        if operands.len() >= 2 {
            assert(object_values(operands@)[0] == object_value(operands@[0]));
            assert(object_values(operands@)[1] == object_value(operands@[1]));
            match shape_of(&operands[0]) {
                Shape::Name(name) => {
                    self.font = chars_of(text_from_utf8_lossy(name.as_slice()).as_str());
                },
                _ => {},
            }
            let size: Option<Number> = if in_form {
                Some(get_number_or(&operands[1], 12))
            } else {
                get_number(&operands[1])
            };
            match size {
                Some(n) => {
                    steps.push(Step::FontSize(n));
                    assert(step_contents(steps@) =~= before + seq![StepModel::FontSize(n)]);
                    return ;
                },
                None => {},
            }
        }
        assert(step_contents(steps@) =~= before + seq![]);
    }
}

/// Whether a text is given for marked content that is open.
fn some_replaced(marks: &Vec<Option<Vec<char>>>) -> (r: bool)
    ensures
        r == any_replaced(mark_contents(marks@)),
{
    let ghost contents = mark_contents(marks@);
    let mut i: usize = 0;
    while i < marks.len()
        invariant
            i <= marks@.len(),
            contents == mark_contents(marks@),
            forall|k: int| 0 <= k < i ==> (#[trigger] contents[k]) is None,
        decreases marks@.len() - i,
    {
        if marks[i].is_some() {
            assert(contents[i as int] is Some);
            return true;
        }
        i = i + 1;
    }
    false
}

/// A mark as it is held, as plain content.
spec fn mark_content(mark: Option<Vec<char>>) -> Option<Seq<char>> {
    match mark {
        Some(t) => Some(t@),
        None => None,
    }
}

impl<'a> Desk<'a> {
    /// Ends marked content.
    fn end_mark(&self, pen: &mut PenState, steps: &mut Vec<Step>)
        requires
            self.wf(),
        ensures
            (final(pen)@, step_contents(final(steps)@)) == ({
                let now = after_mark_end(self.setting(), old(pen)@);
                (now.0, step_contents(old(steps)@) + now.1)
            }),
    {
        let ghost before = step_contents(steps@);
        let ghost marks = mark_contents(pen.marks@);
        if pen.marks.len() == 0 {
            assert(step_contents(steps@) =~= before + seq![]);
            return ;
        }
        let ghost held = pen.marks@;
        let last = pen.marks.pop();
        proof {
            assert(mark_contents(pen.marks@) =~= marks.drop_last());
            assert(last == Some(held.last()));
            assert(marks.last() == mark_content(held.last()));
        }
        match last {
            Some(Some(text)) => {
                if pen.mark_open {
                    pen.mark_open = false;
                    let shown: Option<ShownText> = if trim(text.as_slice()).len() == 0 {
                        None
                    } else {
                        Some(self.styled(pen.font.as_slice(), string_of(text.as_slice())))
                    };
                    let step = Step::MarkEnd(shown);
                    let ghost added = step@;
                    steps.push(step);
                    assert(step_contents(steps@) =~= before + seq![added]);
                } else {
                    assert(step_contents(steps@) =~= before + seq![]);
                }
                pen.replaced = some_replaced(&pen.marks);
            },
            _ => {
                assert(step_contents(steps@) =~= before + seq![]);
            },
        }
    }

    /// The text that the properties of marked content give for it.
    fn replacement(&self, operands: &Vec<lopdf::Object>) -> (r: Option<Vec<char>>)
        ensures
            mark_content(r) == replacement(self.setting().objects, object_values(operands@)),
    {
        if operands.len() < 2 {
            return None;
        }
        assert(object_values(operands@)[1] == object_value(operands@[1]));
        match resolve_dict(self.doc, &operands[1]) {
            Some(properties) => match dict_get(properties, "ActualText") {
                Some(object) => match shape_of(object) {
                    Shape::Text(bytes) => Some(
                        chars_of(decode_text_string(bytes.as_slice()).as_str()),
                    ),
                    _ => None,
                },
                None => None,
            },
            None => None,
        }
    }

    /// Follows an operation that a page and a form have in common.
    fn follow_common(
        &self,
        pen: &mut PenState,
        operator: &[char],
        operands: &Vec<lopdf::Object>,
        steps: &mut Vec<Step>,
    )
        requires
            self.wf(),
        ensures
            (final(pen)@, step_contents(final(steps)@)) == ({
                let now = after_common(
                    self.setting(),
                    old(pen)@,
                    operator@,
                    object_values(operands@),
                );
                (now.0, step_contents(old(steps)@) + now.1)
            }),
    {
        let ghost before = step_contents(steps@);
        assert forall|k: int|
            0 <= k < operands@.len() implies #[trigger] object_values(operands@)[k] == object_value(
            operands@[k],
        ) by {}
        assert(before + seq![] =~= before);
        if is_word(operator, "g") || is_word(operator, "rg") || is_word(operator, "k") {
            pen.set_colour(operator, operands);
        } else if is_word(operator, "BT") {
            pen.in_text = true;
            pen.hidden = false;
            steps.push(Step::ResetText);
            assert(step_contents(steps@) =~= before + seq![StepModel::ResetText]);
        } else if is_word(operator, "ET") {
            pen.in_text = false;
        } else if is_word(operator, "Tf") {
            pen.set_font(operands, self.in_form, steps);
        } else if is_word(operator, "Td") || is_word(operator, "TD") {
            if operands.len() >= 2 {
                let x = get_number_or(&operands[0], 0);
                let y = get_number_or(&operands[1], 0);
                let step = if self.in_form {
                    Step::MoveText(x, y)
                } else if is_word(operator, "TD") {
                    Step::MoveLineSetLeading(x, y)
                } else {
                    Step::MoveLine(x, y)
                };
                let ghost added = step@;
                steps.push(step);
                assert(step_contents(steps@) =~= before + seq![added]);
            }
        } else if is_word(operator, "Tm") {
            if operands.len() >= 6 {
                let m = read_matrix(operands);
                steps.push(Step::SetMatrix(m));
                assert(step_contents(steps@) =~= before + seq![StepModel::SetMatrix(m)]);
            }
        } else if is_word(operator, "Tj") {
            if pen.in_text && operands.len() > 0 {
                self.show_string(pen, &operands[0], steps);
            }
        } else if is_word(operator, "TJ") {
            if pen.in_text && operands.len() > 0 {
                self.show_row(pen, &operands[0], steps);
            }
        }
    }

    /// Follows an operation.
    fn follow(
        &self,
        pen: &mut PenState,
        operator: &[char],
        operands: &Vec<lopdf::Object>,
        steps: &mut Vec<Step>,
    )
        requires
            self.wf(),
        ensures
            (final(pen)@, step_contents(final(steps)@)) == ({
                let now = after_operation(
                    self.setting(),
                    old(pen)@,
                    operator@,
                    object_values(operands@),
                );
                (now.0, step_contents(old(steps)@) + now.1)
            }),
    {
        let ghost before = step_contents(steps@);
        let ghost marks = mark_contents(pen.marks@);
        assert(before + seq![] =~= before);
        if self.in_form {
            self.follow_common(pen, operator, operands, steps);
        } else if is_word(operator, "q") {
            pen.saved.push((pen.white, pen.hidden));
            steps.push(Step::Save);
            assert(step_contents(steps@) =~= before + seq![StepModel::Save]);
        } else if is_word(operator, "Q") {
            let ghost saved = pen.saved@;
            match pen.saved.pop() {
                Some((white, hidden)) => {
                    pen.white = white;
                    pen.hidden = hidden;
                    steps.push(Step::Restore);
                    assert(pen.saved@ =~= saved.drop_last());
                    assert(step_contents(steps@) =~= before + seq![StepModel::Restore]);
                },
                None => {},
            }
        } else if is_word(operator, "cm") {
            if operands.len() >= 6 {
                let m = read_matrix(operands);
                steps.push(Step::Concat(m));
                assert(step_contents(steps@) =~= before + seq![StepModel::Concat(m)]);
            }
        } else if is_word(operator, "re") {
            if operands.len() >= 4 {
                let x = get_number_or(&operands[0], 0);
                let y = get_number_or(&operands[1], 0);
                let w = get_number_or(&operands[2], 0);
                let h = get_number_or(&operands[3], 0);
                steps.push(Step::Rectangle(x, y, w, h));
                assert(step_contents(steps@) =~= before + seq![StepModel::Rectangle(x, y, w, h)]);
            }
        } else if is_word(operator, "TL") {
            match first_number(operands) {
                Some(n) => {
                    steps.push(Step::Leading(n));
                    assert(step_contents(steps@) =~= before + seq![StepModel::Leading(n)]);
                },
                None => {},
            }
        } else if is_word(operator, "Tr") {
            match first_number(operands) {
                Some(n) => {
                    pen.hidden = n.three();
                },
                None => {},
            }
        } else if is_word(operator, "T*") {
            steps.push(Step::NextLine);
            assert(step_contents(steps@) =~= before + seq![StepModel::NextLine]);
        } else if is_word(operator, "'") {
            steps.push(Step::NextLine);
            assert(step_contents(steps@) =~= before + seq![StepModel::NextLine]);
            self.show_quoted(pen, operands, steps);
            assert(step_contents(steps@) =~= before + (seq![StepModel::NextLine] + show_quoted(
                self.setting(),
                pen@,
                object_values(operands@),
            )));
        } else if is_word(operator, "Do") {
            self.place(operands, steps);
        } else if is_word(operator, "BMC") {
            pen.marks.push(None);
            assert(mark_contents(pen.marks@) =~= marks.push(None));
        } else if is_word(operator, "BDC") {
            let text = self.replacement(operands);
            let ghost content = mark_content(text);
            if text.is_some() {
                pen.replaced = true;
                pen.mark_open = true;
                steps.push(Step::MarkStart);
                assert(step_contents(steps@) =~= before + seq![StepModel::MarkStart]);
            }
            pen.marks.push(text);
            assert(mark_contents(pen.marks@) =~= marks.push(content));
        } else if is_word(operator, "EMC") {
            self.end_mark(pen, steps);
        } else {
            self.follow_common(pen, operator, operands, steps);
        }
    }

    /// Follows all operations of a content stream.
    fn follow_all(&self, operations: &Vec<(String, Vec<lopdf::Object>)>) -> (r: Vec<Step>)
        requires
            self.wf(),
        ensures
            step_contents(r@) == after_operations(
                self.setting(),
                listed_operations(operations@),
                operations@.len() as int,
            ).1,
    {
        let ghost list = listed_operations(operations@);
        let mut pen = PenState::new();
        let mut steps: Vec<Step> = Vec::new();
        let mut i: usize = 0;
        assert(step_contents(steps@) =~= seq![]);
        while i < operations.len()
            invariant
                self.wf(),
                i <= operations@.len(),
                list == listed_operations(operations@),
                (pen@, step_contents(steps@)) == after_operations(self.setting(), list, i as int),
            decreases operations@.len() - i,
        {
            assert(list[i as int] == (
                operations@[i as int].0@,
                object_values(operations@[i as int].1@),
            ));
            let operator = chars_of(operations[i].0.as_str());
            self.follow(&mut pen, operator.as_slice(), &operations[i].1, &mut steps);
            i = i + 1;
        }
        steps
    }
}

/// What the interpreter works with on a page.
pub open spec fn page_setting(
    objects: Objects,
    page: (u32, u16),
    cmaps: FontCMaps,
    names: Seq<(Vec<char>, char)>,
    gaps: Seq<(Seq<char>, (u32, u32))>,
) -> Setting {
    Setting {
        fonts: font_model(names, objects, page_fonts(objects, page)),
        cmaps,
        objects,
        xobjects: page_xobjects(objects, page),
        gaps,
        in_form: false,
    }
}

/// What the interpreter works with in a form.
pub open spec fn form_setting(
    objects: Objects,
    form: Entries,
    cmaps: FontCMaps,
    names: Seq<(Vec<char>, char)>,
    gaps: Seq<(Seq<char>, (u32, u32))>,
) -> Setting {
    Setting {
        fonts: font_model(names, objects, form_fonts(objects, form)),
        cmaps,
        objects,
        xobjects: seq![],
        gaps,
        in_form: true,
    }
}

/// The steps by which the text of a page is placed. An error is reported exactly where the content
/// of the page cannot be parsed.
pub fn page_steps(
    doc: &lopdf::Document,
    page_id: (u32, u16),
    font_cmaps: &FontCMaps,
    glyphs: &GlyphNames,
    gaps: &Vec<(Vec<char>, (u32, u32))>,
) -> (r: Result<Vec<Step>, PdfError>)
    requires
        font_cmaps.wf(),
        are_gaps(gaps@),
    ensures
        match operations_of(page_content(document_objects(*doc), page_id)) {
            Ok(operations) => r is Ok && step_contents(r->Ok_0@) == after_operations(
                page_setting(
                    document_objects(*doc),
                    page_id,
                    *font_cmaps,
                    glyphs.names@,
                    gap_contents(gaps@),
                ),
                operations,
                operations.len() as int,
            ).1,
            Err(reason) => r matches Err(PdfError::Parse(m)) && m@ == reason,
        },
{
    let fonts = match find_page_fonts(doc, page_id) {
        Some(f) => f,
        None => Vec::new(),
    };
    assert(listed_fonts(fonts@) =~= page_fonts(document_objects(*doc), page_id));
    let known = PageFonts::new(doc, &fonts, glyphs);
    let xobjects = get_page_xobjects(doc, page_id);
    let data = get_page_content(doc, page_id);
    let operations = match parse_content(data.as_slice()) {
        Ok(o) => o,
        Err(message) => {
            return Err(PdfError::Parse(message));
        },
    };
    let desk = Desk {
        doc,
        fonts: &known,
        cmaps: font_cmaps,
        xobjects: &xobjects,
        gaps,
        in_form: false,
        model: Ghost(font_model(glyphs.names@, document_objects(*doc), listed_fonts(fonts@))),
    };
    let steps = desk.follow_all(&operations);
    Ok(steps)
}

/// The steps by which the text of a form is placed; `None` where the object is no stream, or its
/// content cannot be read.
pub open spec fn steps_of_form(
    objects: Objects,
    form: (u32, u16),
    cmaps: FontCMaps,
    names: Seq<(Vec<char>, char)>,
    gaps: Seq<(Seq<char>, (u32, u32))>,
) -> Option<Seq<StepModel>> {
    match resolved_stream(objects, form) {
        Some((entries, bytes)) => match undone(entries, bytes) {
            Some(data) => match operations_of(data) {
                Ok(operations) => Some(
                    after_operations(
                        form_setting(objects, entries, cmaps, names, gaps),
                        operations,
                        operations.len() as int,
                    ).1,
                ),
                Err(_) => None,
            },
            None => None,
        },
        None => None,
    }
}

/// The steps by which the text of a form is placed.
pub fn form_steps(
    doc: &lopdf::Document,
    form_id: (u32, u16),
    font_cmaps: &FontCMaps,
    glyphs: &GlyphNames,
    gaps: &Vec<(Vec<char>, (u32, u32))>,
) -> (r: Option<Vec<Step>>)
    requires
        font_cmaps.wf(),
        are_gaps(gaps@),
    ensures
        ({
            let steps = steps_of_form(
                document_objects(*doc),
                form_id,
                *font_cmaps,
                glyphs.names@,
                gap_contents(gaps@),
            );
            match r {
                Some(list) => steps == Some(step_contents(list@)),
                None => steps is None,
            }
        }),
{
    let stream = match get_stream(doc, form_id) {
        Some(s) => s,
        None => {
            return None;
        },
    };
    let data = match undo_filters(stream) {
        Some(d) => d,
        None => {
            return None;
        },
    };
    let operations = match parse_content(data.as_slice()) {
        Ok(o) => o,
        Err(_) => {
            return None;
        },
    };
    let fonts = get_form_fonts(doc, stream_parts(stream).0);
    let known = PageFonts::new(doc, &fonts, glyphs);
    let xobjects: Vec<(Vec<char>, XObjectType)> = Vec::new();
    assert(xobject_contents(xobjects@) =~= seq![]);
    let desk = Desk {
        doc,
        fonts: &known,
        cmaps: font_cmaps,
        xobjects: &xobjects,
        gaps,
        in_form: true,
        model: Ghost(font_model(glyphs.names@, document_objects(*doc), listed_fonts(fonts@))),
    };
    let steps = desk.follow_all(&operations);
    Some(steps)
}

/// The widths of the fonts of a page.
pub fn page_font_widths(doc: &lopdf::Document, page_id: (u32, u16)) -> (r: Vec<
    (Vec<char>, FontWidthInfo),
>)
    ensures
        ({
            let fonts = page_fonts(document_objects(*doc), page_id);
            width_contents(r@) == page_widths(document_objects(*doc), fonts, fonts.len() as int)
        }),
{
    let fonts = match find_page_fonts(doc, page_id) {
        Some(f) => f,
        None => Vec::new(),
    };
    assert(listed_fonts(fonts@) =~= page_fonts(document_objects(*doc), page_id));
    build_font_widths(doc, &fonts)
}

/// The widths of the fonts of a form; none where the object is no stream.
pub fn form_font_widths(doc: &lopdf::Document, form_id: (u32, u16)) -> (r: Vec<
    (Vec<char>, FontWidthInfo),
>)
    ensures
        width_contents(r@) == match resolved_stream(document_objects(*doc), form_id) {
            Some((entries, bytes)) => {
                let fonts = form_fonts(document_objects(*doc), entries);
                page_widths(document_objects(*doc), fonts, fonts.len() as int)
            },
            None => seq![],
        },
{
    match get_stream(doc, form_id) {
        Some(stream) => {
            let fonts = get_form_fonts(doc, stream_parts(stream).0);
            build_font_widths(doc, &fonts)
        },
        None => {
            let r: Vec<(Vec<char>, FontWidthInfo)> = Vec::new();
            assert(width_contents(r@) =~= seq![]);
            r
        },
    }
}

// ---------------------------------------------------------------------------------------------
// Laws
// ---------------------------------------------------------------------------------------------

/// Whether a step shows text that stands in the content.
pub open spec fn shows_text(step: StepModel) -> bool {
    match step {
        StepModel::Show(_, _) => true,
        StepModel::ShowRow(_, segments, _) => segments.len() > 0,
        _ => false,
    }
}

/// Text that is white or hidden, or for which other text is given, is never shown.
pub proof fn lemma_silent_text_stays_silent(
    setting: Setting,
    pen: Pen,
    operator: Seq<char>,
    operands: Seq<PdfValue>,
)
    requires
        pen.is_silent(),
    ensures
        forall|i: int|
            0 <= i < after_operation(setting, pen, operator, operands).1.len() ==> !shows_text(
                #[trigger] after_operation(setting, pen, operator, operands).1[i],
            ),
{
    if operands.len() > 0 {
        match operands[0] {
            PdfValue::Array(row) => {
                assert(styled_segments(setting, pen.font, seq![]).len() == 0);
            },
            _ => {},
        }
    }
}

/// To save the state and to go back to it again leaves the state as it was.
pub proof fn lemma_save_then_restore(
    setting: Setting,
    pen: Pen,
    a: Seq<PdfValue>,
    b: Seq<PdfValue>,
)
    requires
        !setting.in_form,
    ensures
        after_operation(
            setting,
            after_operation(setting, pen, "q"@, a).0,
            "Q"@,
            b,
        ).0 == pen,
{
    reveal_strlit("q");
    reveal_strlit("Q");
    assert("q"@[0] != "Q"@[0]);
    assert(pen.saved.push((pen.white, pen.hidden)).drop_last() =~= pen.saved);
}

/// A form shows no further form.
pub proof fn lemma_forms_do_not_nest(
    setting: Setting,
    operations: Seq<(Seq<char>, Seq<PdfValue>)>,
    n: int,
)
    requires
        setting.in_form,
    ensures
        forall|i: int|
            0 <= i < after_operations(setting, operations, n).1.len() ==> !(
            #[trigger] after_operations(setting, operations, n).1[i] is Form),
    decreases n,
{
    if n > 0 {
        lemma_forms_do_not_nest(setting, operations, n - 1);
        let before = after_operations(setting, operations, n - 1);
        let now = after_operation(
            setting,
            before.0,
            operations[n - 1].0,
            operations[n - 1].1,
        );
        assert forall|i: int| 0 <= i < now.1.len() implies !(#[trigger] now.1[i] is Form) by {}
        assert forall|i: int|
            0 <= i < after_operations(setting, operations, n).1.len() implies !(
        #[trigger] after_operations(setting, operations, n).1[i] is Form) by {
            if i < before.1.len() {
                assert(after_operations(setting, operations, n).1[i] == before.1[i]);
            } else {
                assert(after_operations(setting, operations, n).1[i] == now.1[i
                    - before.1.len()]);
            }
        }
    }
}

} // verus!
