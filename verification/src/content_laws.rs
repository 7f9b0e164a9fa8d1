//! What the operations of a content stream do, one by one: laws on the steps of a page.

use crate::content::{
    after_operation, after_operations, replacement, Matrix, Pen, Piece, Run, Setting, Shown, Step,
    StepModel,
};
use crate::numbers::Number;
use crate::page_fonts::last_named;
use crate::pdf::{entry, key, Objects, PdfValue};
use crate::resources::XObjectType;
use crate::text::{lossy_text, trimmed};
use crate::text_utils::{string_text, without_ligatures};
use vstd::prelude::*;

verus! {

/// Whether an operand is the given number.
pub open spec fn is_number(operand: PdfValue, number: Number) -> bool {
    match number {
        Number::Integer(i) => operand == PdfValue::Integer(i),
        Number::Real(bits) => operand == PdfValue::Real(bits),
    }
}

/// Whether operands start with the given numbers.
pub open spec fn are_numbers(operands: Seq<PdfValue>, numbers: Seq<Number>) -> bool {
    operands.len() >= numbers.len() && forall|i: int|
        0 <= i < numbers.len() ==> is_number(#[trigger] operands[i], numbers[i])
}

/// The steps that operation `n` adds to those of the operations before it.
pub open spec fn adds_steps(
    setting: Setting,
    operations: Seq<(Seq<char>, Seq<PdfValue>)>,
    n: int,
    steps: Seq<StepModel>,
) -> bool {
    after_operations(setting, operations, n + 1).1 == after_operations(setting, operations, n).1
        + steps
}

/// Whether operation `n` leaves what the interpreter keeps in mind.
pub open spec fn keeps_state(
    setting: Setting,
    operations: Seq<(Seq<char>, Seq<PdfValue>)>,
    n: int,
) -> bool {
    after_operations(setting, operations, n + 1).0 == after_operations(setting, operations, n).0
}

/// Whether operation `n` adds a step that shows a text.
pub open spec fn adds_text(
    setting: Setting,
    operations: Seq<(Seq<char>, Seq<PdfValue>)>,
    n: int,
    shown: Shown,
    run: Option<Run>,
) -> bool {
    adds_steps(setting, operations, n, seq![StepModel::Show(shown, run)])
}

/// Whether operation `n` goes to the next line and shows a text there.
pub open spec fn adds_line(
    setting: Setting,
    operations: Seq<(Seq<char>, Seq<PdfValue>)>,
    n: int,
    shown: Shown,
) -> bool {
    adds_steps(setting, operations, n, seq![StepModel::NextLine, StepModel::Show(shown, None)])
}

/// Whether operation `n` adds a row that is measured.
pub open spec fn adds_row(
    setting: Setting,
    operations: Seq<(Seq<char>, Seq<PdfValue>)>,
    n: int,
    pieces: Seq<Piece>,
    segments: Seq<(Shown, int, int)>,
) -> bool {
    adds_steps(setting, operations, n, seq![StepModel::ShowRow(pieces, segments, true)])
}

/// A text as a number, by which short texts are told apart.
spec fn text_number(s: Seq<char>) -> int
    decreases s.len(),
{
    if s.len() == 0 {
        0
    } else {
        text_number(s.drop_last()) * 128 + s.last() as int
    }
}

proof fn lemma_text_number(s: Seq<char>)
    ensures
        s.len() == 1 ==> text_number(s) == s[0] as int,
        s.len() == 2 ==> text_number(s) == s[0] as int * 128 + s[1] as int,
        s.len() == 3 ==> text_number(s) == (s[0] as int * 128 + s[1] as int) * 128 + s[2] as int,
{
    reveal_with_fuel(text_number, 4);
    if s.len() == 2 {
        assert(s.drop_last()[0] == s[0]);
    } else if s.len() == 3 {
        assert(s.drop_last()[1] == s[1]);
        assert(s.drop_last().drop_last()[0] == s[0]);
    }
}

/// The names of the operators are all different.
proof fn reveal_names()
    ensures
        text_number("g"@) == 103,
        text_number("rg"@) == 14695,
        text_number("k"@) == 107,
        text_number("BT"@) == 8532,
        text_number("ET"@) == 8916,
        text_number("Tf"@) == 10854,
        text_number("Td"@) == 10852,
        text_number("TD"@) == 10820,
        text_number("Tm"@) == 10861,
        text_number("Tj"@) == 10858,
        text_number("TJ"@) == 10826,
        text_number("q"@) == 113,
        text_number("Q"@) == 81,
        text_number("cm"@) == 12781,
        text_number("re"@) == 14693,
        text_number("TL"@) == 10828,
        text_number("Tr"@) == 10866,
        text_number("T*"@) == 10794,
        text_number("'"@) == 39,
        text_number("Do"@) == 8815,
        text_number("BMC"@) == 1091267,
        text_number("BDC"@) == 1090115,
        text_number("EMC"@) == 1140419,
{
    reveal_strlit("g");
    lemma_text_number("g"@);
    reveal_strlit("rg");
    lemma_text_number("rg"@);
    reveal_strlit("k");
    lemma_text_number("k"@);
    reveal_strlit("BT");
    lemma_text_number("BT"@);
    reveal_strlit("ET");
    lemma_text_number("ET"@);
    reveal_strlit("Tf");
    lemma_text_number("Tf"@);
    reveal_strlit("Td");
    lemma_text_number("Td"@);
    reveal_strlit("TD");
    lemma_text_number("TD"@);
    reveal_strlit("Tm");
    lemma_text_number("Tm"@);
    reveal_strlit("Tj");
    lemma_text_number("Tj"@);
    reveal_strlit("TJ");
    lemma_text_number("TJ"@);
    reveal_strlit("q");
    lemma_text_number("q"@);
    reveal_strlit("Q");
    lemma_text_number("Q"@);
    reveal_strlit("cm");
    lemma_text_number("cm"@);
    reveal_strlit("re");
    lemma_text_number("re"@);
    reveal_strlit("TL");
    lemma_text_number("TL"@);
    reveal_strlit("Tr");
    lemma_text_number("Tr"@);
    reveal_strlit("T*");
    lemma_text_number("T*"@);
    reveal_strlit("'");
    lemma_text_number("'"@);
    reveal_strlit("Do");
    lemma_text_number("Do"@);
    reveal_strlit("BMC");
    lemma_text_number("BMC"@);
    reveal_strlit("BDC");
    lemma_text_number("BDC"@);
    reveal_strlit("EMC");
    lemma_text_number("EMC"@);
}

/// What has been said stays: the steps of more operations start with those of fewer.
pub proof fn lemma_steps_go_on(
    setting: Setting,
    operations: Seq<(Seq<char>, Seq<PdfValue>)>,
    m: int,
    n: int,
)
    requires
        0 <= m <= n,
    ensures
        after_operations(setting, operations, m).1.is_prefix_of(
            after_operations(setting, operations, n).1,
        ),
    decreases n,
{
    if m < n {
        lemma_steps_go_on(setting, operations, m, n - 1);
    }
}

/// A text is put down where the last `Td` leads: it moves from the start of the line by its first
/// operand across and by its second up. `TD` moves likewise and sets the distance between lines.
pub proof fn lemma_td_moves_the_line(
    setting: Setting,
    operations: Seq<(Seq<char>, Seq<PdfValue>)>,
    n: int,
    x: Number,
    y: Number,
)
    requires
        0 <= n < operations.len(),
        !setting.in_form,
        operations[n].0 == "Td"@ || operations[n].0 == "TD"@,
        are_numbers(operations[n].1, seq![x, y]),
    ensures
        operations[n].0 == "Td"@ ==> adds_steps(
            setting,
            operations,
            n,
            seq![StepModel::MoveLine(x, y)],
        ),
        operations[n].0 == "TD"@ ==> adds_steps(
            setting,
            operations,
            n,
            seq![StepModel::MoveLineSetLeading(x, y)],
        ),
        keeps_state(setting, operations, n),
{
    reveal_names();
    let numbers = seq![x, y];
    assert(is_number(operations[n].1[0], numbers[0]));
    assert(is_number(operations[n].1[1], numbers[1]));
}

/// In a form, `Td` and `TD` move from where the text stands.
pub proof fn lemma_td_moves_the_text_of_a_form(
    setting: Setting,
    operations: Seq<(Seq<char>, Seq<PdfValue>)>,
    n: int,
    x: Number,
    y: Number,
)
    requires
        0 <= n < operations.len(),
        setting.in_form,
        operations[n].0 == "Td"@ || operations[n].0 == "TD"@,
        are_numbers(operations[n].1, seq![x, y]),
    ensures
        adds_steps(setting, operations, n, seq![StepModel::MoveText(x, y)]),
        keeps_state(setting, operations, n),
{
    reveal_names();
    let numbers = seq![x, y];
    assert(is_number(operations[n].1[0], numbers[0]));
    assert(is_number(operations[n].1[1], numbers[1]));
}

/// `Tm` sets the text matrix to its six operands in order, and `cm` puts them in front of the
/// transformation of the page.
pub proof fn lemma_matrices_are_read_in_order(
    setting: Setting,
    operations: Seq<(Seq<char>, Seq<PdfValue>)>,
    n: int,
    m: Matrix,
)
    requires
        0 <= n < operations.len(),
        operations[n].0 == "Tm"@ || (operations[n].0 == "cm"@ && !setting.in_form),
        are_numbers(operations[n].1, seq![m.a, m.b, m.c, m.d, m.e, m.f]),
    ensures
        operations[n].0 == "Tm"@ ==> adds_steps(
            setting,
            operations,
            n,
            seq![StepModel::SetMatrix(m)],
        ),
        operations[n].0 == "cm"@ ==> adds_steps(setting, operations, n, seq![StepModel::Concat(m)]),
        keeps_state(setting, operations, n),
{
    reveal_names();
    let numbers = seq![m.a, m.b, m.c, m.d, m.e, m.f];
    let operands = operations[n].1;
    assert(is_number(operands[0], numbers[0]));
    assert(is_number(operands[1], numbers[1]));
    assert(is_number(operands[2], numbers[2]));
    assert(is_number(operands[3], numbers[3]));
    assert(is_number(operands[4], numbers[4]));
    assert(is_number(operands[5], numbers[5]));
}

/// `re` draws a rectangle with the corner, the width and the height that its operands are.
pub proof fn lemma_rectangles_are_drawn(
    setting: Setting,
    operations: Seq<(Seq<char>, Seq<PdfValue>)>,
    n: int,
    x: Number,
    y: Number,
    width: Number,
    height: Number,
)
    requires
        0 <= n < operations.len(),
        !setting.in_form,
        operations[n].0 == "re"@,
        are_numbers(operations[n].1, seq![x, y, width, height]),
    ensures
        adds_steps(setting, operations, n, seq![StepModel::Rectangle(x, y, width, height)]),
        keeps_state(setting, operations, n),
{
    reveal_names();
    let numbers = seq![x, y, width, height];
    let operands = operations[n].1;
    assert(is_number(operands[0], numbers[0]));
    assert(is_number(operands[1], numbers[1]));
    assert(is_number(operands[2], numbers[2]));
    assert(is_number(operands[3], numbers[3]));
}

/// `TL` sets the distance between lines, and `T*` goes to the next line.
pub proof fn lemma_lines_follow_each_other(
    setting: Setting,
    operations: Seq<(Seq<char>, Seq<PdfValue>)>,
    n: int,
    leading: Number,
)
    requires
        0 <= n < operations.len(),
        !setting.in_form,
        operations[n].0 == "T*"@ || (operations[n].0 == "TL"@ && are_numbers(
            operations[n].1,
            seq![leading],
        )),
    ensures
        operations[n].0 == "TL"@ ==> adds_steps(
            setting,
            operations,
            n,
            seq![StepModel::Leading(leading)],
        ),
        operations[n].0 == "T*"@ ==> adds_steps(setting, operations, n, seq![StepModel::NextLine]),
        keeps_state(setting, operations, n),
{
    reveal_names();
    let numbers = seq![leading];
    if operations[n].0 == "TL"@ {
        assert(is_number(operations[n].1[0], numbers[0]));
    }
}

/// `q` and `Q` save the transformation and go back to it; `Q` does so only where one was saved.
pub proof fn lemma_saving_is_a_step(
    setting: Setting,
    operations: Seq<(Seq<char>, Seq<PdfValue>)>,
    n: int,
)
    requires
        0 <= n < operations.len(),
        !setting.in_form,
        operations[n].0 == "q"@ || operations[n].0 == "Q"@,
    ensures
        ({
            let saved = after_operations(setting, operations, n).0.saved.len();
            let now = after_operations(setting, operations, n + 1).0.saved.len();
            if operations[n].0 == "q"@ {
                adds_steps(setting, operations, n, seq![StepModel::Save]) && now == saved + 1
            } else if saved > 0 {
                adds_steps(setting, operations, n, seq![StepModel::Restore]) && now == saved - 1
            } else {
                adds_steps(setting, operations, n, seq![]) && now == 0
            }
        }),
{
    reveal_names();
    assert(after_operations(setting, operations, n).1 + Seq::<StepModel>::empty()
        =~= after_operations(setting, operations, n).1);
}

/// `BT` opens a text block: the text matrix is reset, and text can be seen again. `ET` closes it.
pub proof fn lemma_text_blocks(
    setting: Setting,
    operations: Seq<(Seq<char>, Seq<PdfValue>)>,
    n: int,
)
    requires
        0 <= n < operations.len(),
        operations[n].0 == "BT"@ || operations[n].0 == "ET"@,
    ensures
        ({
            let before = after_operations(setting, operations, n).0;
            let now = after_operations(setting, operations, n + 1).0;
            if operations[n].0 == "BT"@ {
                &&& adds_steps(setting, operations, n, seq![StepModel::ResetText])
                &&& now == (Pen { in_text: true, hidden: false, ..before })
            } else {
                &&& adds_steps(setting, operations, n, seq![])
                &&& now == (Pen { in_text: false, ..before })
            }
        }),
{
    reveal_names();
    assert(after_operations(setting, operations, n).1 + Seq::<StepModel>::empty()
        =~= after_operations(setting, operations, n).1);
}

/// `Tf` sets the font to its first operand and the font size to its second.
pub proof fn lemma_fonts_are_set(
    setting: Setting,
    operations: Seq<(Seq<char>, Seq<PdfValue>)>,
    n: int,
    name: Seq<u8>,
    size: Number,
)
    requires
        0 <= n < operations.len(),
        operations[n].0 == "Tf"@,
        operations[n].1.len() >= 2,
        operations[n].1[0] == PdfValue::Name(name),
        is_number(operations[n].1[1], size),
    ensures
        adds_steps(setting, operations, n, seq![StepModel::FontSize(size)]),
        after_operations(setting, operations, n + 1).0 == (Pen {
            font: lossy_text(name),
            ..after_operations(setting, operations, n).0
        }),
{
    reveal_names();
}

/// In a text block, a string that can be seen and is not blank is shown once, in the current font,
/// with its ligatures taken apart; the position then advances by its width where that is known. A
/// string that cannot be seen only advances. Outside of a text block nothing happens.
pub proof fn lemma_strings_are_shown(
    setting: Setting,
    operations: Seq<(Seq<char>, Seq<PdfValue>)>,
    n: int,
    bytes: Seq<u8>,
)
    requires
        0 <= n < operations.len(),
        operations[n].0 == "Tj"@,
        operations[n].1.len() > 0,
        operations[n].1[0] == PdfValue::Text(bytes),
    ensures
        ({
            let pen = after_operations(setting, operations, n).0;
            let text = setting.text_of(pen.font, bytes);
            let run = setting.run_of(pen.font, bytes);
            if !pen.in_text {
                adds_steps(setting, operations, n, seq![])
            } else if !pen.white && !pen.hidden && !pen.replaced && trimmed(text).len() > 0 {
                exists|shown: Shown| #[trigger]
                    adds_text(setting, operations, n, shown, run)
                        && shown.text == without_ligatures(text) && shown.font == pen.font
            } else if run is Some {
                adds_steps(setting, operations, n, seq![StepModel::Advance(run->0)])
            } else {
                adds_steps(setting, operations, n, seq![])
            }
        }),
        keeps_state(setting, operations, n),
{
    reveal_names();
    let pen = after_operations(setting, operations, n).0;
    let text = setting.text_of(pen.font, bytes);
    let before = after_operations(setting, operations, n).1;
    assert(before + Seq::<StepModel>::empty() =~= before);
    let shown = setting.styled(pen.font, without_ligatures(text));
    if pen.in_text && !pen.is_silent() && trimmed(text).len() > 0 {
        assert(adds_text(setting, operations, n, shown, setting.run_of(pen.font, bytes)));
    }
}

/// The apostrophe goes to the next line and shows a string there.
pub proof fn lemma_quoted_strings_are_shown(
    setting: Setting,
    operations: Seq<(Seq<char>, Seq<PdfValue>)>,
    n: int,
    bytes: Seq<u8>,
)
    requires
        0 <= n < operations.len(),
        !setting.in_form,
        operations[n].0 == "'"@,
        operations[n].1.len() > 0,
        operations[n].1[0] == PdfValue::Text(bytes),
    ensures
        ({
            let pen = after_operations(setting, operations, n).0;
            let text = setting.text_of(pen.font, bytes);
            if !pen.white && !pen.hidden && !pen.replaced && trimmed(text).len() > 0 {
                exists|shown: Shown| #[trigger]
                    adds_line(setting, operations, n, shown) && shown.text == without_ligatures(text) && shown.font == pen.font
            } else {
                adds_steps(setting, operations, n, seq![StepModel::NextLine])
            }
        }),
        keeps_state(setting, operations, n),
{
    reveal_names();
    let pen = after_operations(setting, operations, n).0;
    let text = setting.text_of(pen.font, bytes);
    let before = after_operations(setting, operations, n).1;
    let next = seq![StepModel::NextLine];
    if !pen.is_silent() && trimmed(text).len() > 0 {
        let shown = setting.styled(pen.font, without_ligatures(text));
        assert(next + seq![StepModel::Show(shown, None)] =~= seq![
            StepModel::NextLine,
            StepModel::Show(shown, None),
        ]);
        assert(adds_line(setting, operations, n, shown));
    } else {
        assert(next + Seq::<StepModel>::empty() =~= next);
    }
}

/// `Do` shows the form that the page has under the name, and passes over images.
pub proof fn lemma_forms_are_placed(
    setting: Setting,
    operations: Seq<(Seq<char>, Seq<PdfValue>)>,
    n: int,
    name: Seq<u8>,
)
    requires
        0 <= n < operations.len(),
        !setting.in_form,
        operations[n].0 == "Do"@,
        operations[n].1.len() > 0,
        operations[n].1[0] == PdfValue::Name(name),
    ensures
        match last_named(setting.xobjects, lossy_text(name)) {
            Some(XObjectType::Form(id)) => adds_steps(
                setting,
                operations,
                n,
                seq![StepModel::Form(id)],
            ),
            _ => adds_steps(setting, operations, n, seq![]),
        },
        keeps_state(setting, operations, n),
{
    reveal_names();
    assert(after_operations(setting, operations, n).1 + Seq::<StepModel>::empty()
        =~= after_operations(setting, operations, n).1);
}

/// Text is hidden by rendering mode 3 and by no other whole number, and by the colour white: a grey
/// of 1, red, green and blue of 1, or cyan, magenta, yellow and black of 0.
pub proof fn lemma_what_hides_text(
    setting: Setting,
    operations: Seq<(Seq<char>, Seq<PdfValue>)>,
    n: int,
    values: Seq<i64>,
)
    requires
        0 <= n < operations.len(),
        !setting.in_form,
        operations[n].1.len() == values.len(),
        forall|k: int|
            0 <= k < values.len() ==> #[trigger] operations[n].1[k] == PdfValue::Integer(values[k]),
        forall|k: int| 0 <= k < values.len() ==> 0 <= #[trigger] values[k],
    ensures
        ({
            let before = after_operations(setting, operations, n).0;
            let now = after_operations(setting, operations, n + 1).0;
            &&& operations[n].0 == "Tr"@ && values.len() == 1 ==> now == (Pen {
                hidden: values[0] == 3,
                ..before
            })
            &&& operations[n].0 == "g"@ && values.len() == 1 ==> now == (Pen {
                white: values[0] != 0,
                ..before
            })
            &&& operations[n].0 == "rg"@ && values.len() == 3 ==> now == (Pen {
                white: values[0] != 0 && values[1] != 0 && values[2] != 0,
                ..before
            })
            &&& operations[n].0 == "k"@ && values.len() == 4 ==> now == (Pen {
                white: values[0] == 0 && values[1] == 0 && values[2] == 0 && values[3] == 0,
                ..before
            })
            &&& operations[n].0 == "Tr"@ || operations[n].0 == "g"@ || operations[n].0 == "rg"@
                || operations[n].0 == "k"@ ==> adds_steps(setting, operations, n, seq![])
        }),
{
    reveal_names();
    assert(after_operations(setting, operations, n).1 + Seq::<StepModel>::empty()
        =~= after_operations(setting, operations, n).1);
    let operands = operations[n].1;
    if values.len() == 1 {
        assert(operands[0] == PdfValue::Integer(values[0]));
    } else if values.len() == 3 {
        assert(operands[0] == PdfValue::Integer(values[0]));
        assert(operands[1] == PdfValue::Integer(values[1]));
        assert(operands[2] == PdfValue::Integer(values[2]));
    } else if values.len() == 4 {
        assert(operands[0] == PdfValue::Integer(values[0]));
        assert(operands[1] == PdfValue::Integer(values[1]));
        assert(operands[2] == PdfValue::Integer(values[2]));
        assert(operands[3] == PdfValue::Integer(values[3]));
    }
}

/// A row in a text block advances by each of its elements in order where the widths of the font are
/// known: a number moves back by itself, and a string forward by its width.
pub proof fn lemma_rows_advance_by_their_elements(
    setting: Setting,
    operations: Seq<(Seq<char>, Seq<PdfValue>)>,
    n: int,
    row: Seq<PdfValue>,
)
    requires
        0 <= n < operations.len(),
        operations[n].0 == "TJ"@,
        operations[n].1.len() > 0,
        operations[n].1[0] == PdfValue::Array(row),
        after_operations(setting, operations, n).0.in_text,
        last_named(setting.fonts.widths, after_operations(setting, operations, n).0.font) is Some,
    ensures
        exists|pieces: Seq<Piece>, segments: Seq<(Shown, int, int)>|
            {
                &&& #[trigger] adds_row(setting, operations, n, pieces, segments)
                &&& pieces.len() == row.len()
                &&& forall|k: int, number: Number|
                    0 <= k < row.len() && #[trigger] is_number(row[k], number) ==> pieces[k]
                        == Piece::Displacement(number)
                &&& forall|k: int|
                    0 <= k < row.len() && row[k] is Text ==> #[trigger] pieces[k]
                        == match setting.run_of(
                        after_operations(setting, operations, n).0.font,
                        row[k]->Text_0,
                    ) {
                        Some(run) => Piece::Run(run),
                        None => Piece::Nothing,
                    }
                &&& after_operations(setting, operations, n).0.is_silent() ==> segments.len() == 0
            },
        keeps_state(setting, operations, n),
{
    reveal_names();
    let pen = after_operations(setting, operations, n).0;
    let pieces = row.map_values(|e: PdfValue| crate::content::piece_of(setting, pen.font, e));
    let chosen = if pen.is_silent() {
        seq![]
    } else {
        crate::content::row_segments(setting, pen.font, row)
    };
    let segments = crate::content::styled_segments(setting, pen.font, chosen);
    assert(adds_row(setting, operations, n, pieces, segments));
}

/// Marked content for which a text is given is silent up to its end; there, the text that is given
/// is shown in its place, unless it is blank.
pub proof fn lemma_marked_content_is_replaced(
    setting: Setting,
    pen: Pen,
    begin: Seq<PdfValue>,
    end: Seq<PdfValue>,
    text: Seq<char>,
)
    requires
        !setting.in_form,
        replacement(setting.objects, begin) == Some(text),
    ensures
        ({
            let opened = after_operation(setting, pen, "BDC"@, begin);
            let closed = after_operation(setting, opened.0, "EMC"@, end);
            &&& opened.1 == seq![StepModel::MarkStart]
            &&& opened.0.is_silent()
            &&& closed.0.marks == pen.marks
            &&& closed.0.font == pen.font
            &&& closed.1.len() == 1
            &&& match closed.1[0] {
                StepModel::MarkEnd(Some(shown)) => trimmed(text).len() > 0 && shown.text == text
                    && shown.font == pen.font,
                StepModel::MarkEnd(None) => trimmed(text).len() == 0,
                _ => false,
            }
            &&& (forall|k: int| 0 <= k < pen.marks.len() ==> (#[trigger] pen.marks[k]) is None)
                ==> !closed.0.replaced
            &&& (exists|k: int| 0 <= k < pen.marks.len() && (#[trigger] pen.marks[k]) is Some)
                ==> closed.0.is_silent()
        }),
{
    reveal_names();
    assert(pen.marks.push(Some(text)).drop_last() =~= pen.marks);
}

/// Marked content has the text that its properties give under `ActualText`, in UTF-16 behind a byte order
/// mark or byte by byte; without such a text it is shown as it is.
pub proof fn lemma_texts_of_marked_content(
    objects: Objects,
    tag: PdfValue,
    properties: Seq<(Seq<u8>, PdfValue)>,
    bytes: Seq<u8>,
)
    ensures
        entry(properties, key("ActualText")) == Some(PdfValue::Text(bytes)) ==> replacement(
            objects,
            seq![tag, PdfValue::Dictionary(properties)],
        ) == Some(string_text(bytes)),
        entry(properties, key("ActualText")) is None ==> replacement(
            objects,
            seq![tag, PdfValue::Dictionary(properties)],
        ) is None,
        replacement(objects, seq![tag]) is None,
{
}

/// Steps are handed out as they are.
pub proof fn lemma_steps_are_handed_out(x: Number, y: Number, w: Number, h: Number, m: Matrix)
    ensures
        Step::MoveLine(x, y)@ == StepModel::MoveLine(x, y),
        Step::MoveLineSetLeading(x, y)@ == StepModel::MoveLineSetLeading(x, y),
        Step::MoveText(x, y)@ == StepModel::MoveText(x, y),
        Step::Rectangle(x, y, w, h)@ == StepModel::Rectangle(x, y, w, h),
        Step::SetMatrix(m)@ == StepModel::SetMatrix(m),
        Step::Concat(m)@ == StepModel::Concat(m),
        Step::FontSize(x)@ == StepModel::FontSize(x),
        Step::Leading(x)@ == StepModel::Leading(x),
        Step::NextLine@ == StepModel::NextLine,
        Step::Save@ == StepModel::Save,
        Step::Restore@ == StepModel::Restore,
        Step::ResetText@ == StepModel::ResetText,
        Step::MarkStart@ == StepModel::MarkStart,
{
}

} // verus!
