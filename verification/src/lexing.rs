//! The tokens of a PDF: where strings, names and comments end, and how deep arrays and dictionaries
//! are nested.

use vstd::prelude::*;

verus! {

// ---------------------------------------------------------------------------------------------
// Bytes
// ---------------------------------------------------------------------------------------------

/// Whether a byte separates tokens.
pub open spec fn is_gap(b: u8) -> bool {
    b == 32 || b == 9 || b == 10 || b == 12 || b == 13 || b == 0
}

/// Whether a byte ends a line.
pub open spec fn is_line_end(b: u8) -> bool {
    b == 10 || b == 13
}

/// Whether a byte is a decimal digit.
pub open spec fn is_digit_byte(b: u8) -> bool {
    48 <= b <= 57
}

/// Whether a byte is one of `()<>[]{}/%`.
pub open spec fn is_delimiter(b: u8) -> bool {
    b == 40 || b == 41 || b == 60 || b == 62 || b == 91 || b == 93 || b == 123 || b == 125 || b == 47
        || b == 37
}

/// Whether a byte may belong to a name.
pub open spec fn is_regular(b: u8) -> bool {
    !is_gap(b) && !is_delimiter(b)
}

/// Whether a byte may belong to a number, to a reference, or to `true`, `false` or `null`.
pub open spec fn is_plain(b: u8) -> bool {
    is_digit_byte(b) || b == 43 || b == 45 || b == 46 || b == 82 || b == 97 || b == 101 || b == 102
        || b == 108 || b == 110 || b == 114 || b == 115 || b == 116 || b == 117
}

/// Classes of bytes.
#[derive(Clone, Copy, PartialEq, Eq, Structural)]
pub enum ByteClass {
    /// Those that separate tokens.
    Gap,
    /// Decimal digits.
    Digit,
    /// Those of names.
    Regular,
    /// Those of numbers, references and words.
    Plain,
    /// White space in a content stream.
    Space,
    /// Spaces and tabs.
    Blank,
    /// Those of a table of offsets.
    Table,
}

/// Whether a byte is of a class.
pub open spec fn is_of(b: u8, class: ByteClass) -> bool {
    match class {
        ByteClass::Gap => is_gap(b),
        ByteClass::Digit => is_digit_byte(b),
        ByteClass::Regular => is_regular(b),
        ByteClass::Plain => is_plain(b),
        ByteClass::Space => b == 32 || b == 9 || b == 10 || b == 13,
        ByteClass::Blank => b == 32 || b == 9,
        ByteClass::Table => is_digit_byte(b) || b == 32 || b == 10 || b == 13 || b == 102 || b == 110,
    }
}

/// The first position from `i` on at which a byte is not of a class.
pub open spec fn run_end(bytes: Seq<u8>, class: ByteClass, i: int) -> int
    decreases bytes.len() - i,
{
    if i < 0 || i >= bytes.len() || !is_of(bytes[i], class) {
        i
    } else {
        run_end(bytes, class, i + 1)
    }
}

/// Whether a byte is of a class.
pub(crate) fn check_class(b: u8, class: ByteClass) -> (r: bool)
    ensures
        r == is_of(b, class),
{
    let gap: bool = b == 32 || b == 9 || b == 10 || b == 12 || b == 13 || b == 0;
    let digit: bool = 48 <= b && b <= 57;
    match class {
        ByteClass::Gap => gap,
        ByteClass::Digit => digit,
        ByteClass::Regular => !gap && !(b == 40 || b == 41 || b == 60 || b == 62 || b == 91 || b == 93
            || b == 123 || b == 125 || b == 47 || b == 37),
        ByteClass::Plain => digit || b == 43 || b == 45 || b == 46 || b == 82 || b == 97 || b == 101
            || b == 102 || b == 108 || b == 110 || b == 114 || b == 115 || b == 116 || b == 117,
        ByteClass::Space => b == 32 || b == 9 || b == 10 || b == 13,
        ByteClass::Blank => b == 32 || b == 9,
        ByteClass::Table => digit || b == 32 || b == 10 || b == 13 || b == 102 || b == 110,
    }
}

/// The first position from `i` on at which a byte is not of a class.
pub(crate) fn skip_run(bytes: &[u8], class: ByteClass, i: usize) -> (r: usize)
    requires
        i <= bytes@.len(),
    ensures
        r == run_end(bytes@, class, i as int),
        i <= r <= bytes@.len(),
{
    let mut k: usize = i;
    while k < bytes.len() && check_class(bytes[k], class)
        invariant
            i <= k <= bytes@.len(),
            run_end(bytes@, class, k as int) == run_end(bytes@, class, i as int),
        decreases bytes@.len() - k,
    {
        k = k + 1;
    }
    k
}

/// The first position from `i` on that is neither in a gap nor in a comment. `inside` says that `i`
/// is in a comment.
pub open spec fn space_end(bytes: Seq<u8>, i: int, inside: bool) -> int
    decreases bytes.len() - i,
{
    if i < 0 || i >= bytes.len() {
        i
    } else if inside {
        space_end(bytes, i + 1, !is_line_end(bytes[i]))
    } else if is_gap(bytes[i]) {
        space_end(bytes, i + 1, false)
    } else if bytes[i] == 37 {
        space_end(bytes, i + 1, true)
    } else {
        i
    }
}

/// The first position from `i` on that is neither in a gap nor in a comment.
pub(crate) fn skip_space(bytes: &[u8], i: usize) -> (r: usize)
    requires
        i <= bytes@.len(),
    ensures
        r == space_end(bytes@, i as int, false),
        i <= r <= bytes@.len(),
{
    let mut k: usize = i;
    let mut inside: bool = false;
    while k < bytes.len() && (inside || bytes[k] == 37 || check_class(bytes[k], ByteClass::Gap))
        invariant
            i <= k <= bytes@.len(),
            space_end(bytes@, k as int, inside) == space_end(bytes@, i as int, false),
        decreases bytes@.len() - k,
    {
        let b: u8 = bytes[k];
        inside = if inside {
            !(b == 10 || b == 13)
        } else {
            b == 37
        };
        k = k + 1;
    }
    k
}

// ---------------------------------------------------------------------------------------------
// Tokens
// ---------------------------------------------------------------------------------------------

/// In what a position is.
#[derive(Clone, Copy, PartialEq, Eq, Structural)]
pub enum Place {
    /// Between tokens, or in one of plain bytes.
    Between,
    Comment,
    /// In a string in round brackets.
    Text,
    /// Behind a backslash in such a string.
    Escape,
    /// In a string of hexadecimal digits.
    Hex,
    Name,
}

/// What a byte does that starts a token or separates tokens.
#[derive(Clone, Copy, PartialEq, Eq, Structural)]
pub enum Mark {
    /// The next position is in the given place.
    Leads(Place),
    /// It opens an array.
    OpensArray,
    /// With the next byte it opens a dictionary.
    OpensDictionary,
    /// It closes an array.
    ClosesArray,
    /// With the next byte it closes a dictionary.
    ClosesDictionary,
    /// No object goes on here.
    Stops,
}

/// Whether the token at a position goes on with a byte.
pub open spec fn goes_on(place: Place, b: u8) -> bool {
    match place {
        Place::Between => false,
        Place::Name => is_regular(b),
        _ => true,
    }
}

/// The place behind a byte with which a token goes on, and how many round brackets are open there.
pub open spec fn place_behind(place: Place, open: int, b: u8) -> (Place, int) {
    match place {
        Place::Comment => if is_line_end(b) {
            (Place::Between, 0)
        } else {
            (Place::Comment, 0)
        },
        Place::Text => if b == 92 {
            (Place::Escape, open)
        } else if b == 40 {
            (Place::Text, open + 1)
        } else if b == 41 {
            if open <= 1 {
                (Place::Between, 0)
            } else {
                (Place::Text, open - 1)
            }
        } else {
            (Place::Text, open)
        },
        Place::Escape => (Place::Text, open),
        Place::Hex => if b == 62 {
            (Place::Between, 0)
        } else {
            (Place::Hex, 0)
        },
        _ => (place, 0),
    }
}

/// What the byte at a position between tokens does.
pub open spec fn mark_at(bytes: Seq<u8>, p: int) -> Mark {
    let b = bytes[p];
    let doubled = p + 1 < bytes.len() && bytes[p + 1] == b;
    if is_gap(b) || is_plain(b) {
        Mark::Leads(Place::Between)
    } else if b == 37 {
        Mark::Leads(Place::Comment)
    } else if b == 40 {
        Mark::Leads(Place::Text)
    } else if b == 47 {
        Mark::Leads(Place::Name)
    } else if b == 91 {
        Mark::OpensArray
    } else if b == 93 {
        Mark::ClosesArray
    } else if b == 60 {
        if doubled {
            Mark::OpensDictionary
        } else {
            Mark::Leads(Place::Hex)
        }
    } else if b == 62 && doubled {
        Mark::ClosesDictionary
    } else {
        Mark::Stops
    }
}

/// Whether the token at a position goes on with a byte.
pub(crate) fn check_goes_on(place: Place, b: u8) -> (r: bool)
    ensures
        r == goes_on(place, b),
{
    match place {
        Place::Between => false,
        Place::Name => check_class(b, ByteClass::Regular),
        _ => true,
    }
}

/// The place behind a byte with which a token goes on.
pub(crate) fn find_place(place: Place, open: usize, b: u8) -> (r: (Place, usize))
    requires
        open < usize::MAX,
    ensures
        (r.0, r.1 as int) == place_behind(place, open as int, b),
        r.1 <= open + 1,
{
    match place {
        Place::Comment => if b == 10 || b == 13 {
            (Place::Between, 0)
        } else {
            (Place::Comment, 0)
        },
        Place::Text => if b == 92 {
            (Place::Escape, open)
        } else if b == 40 {
            (Place::Text, open + 1)
        } else if b == 41 {
            if open <= 1 {
                (Place::Between, 0)
            } else {
                (Place::Text, open - 1)
            }
        } else {
            (Place::Text, open)
        },
        Place::Escape => (Place::Text, open),
        Place::Hex => if b == 62 {
            (Place::Between, 0)
        } else {
            (Place::Hex, 0)
        },
        Place::Between => (Place::Between, 0),
        Place::Name => (Place::Name, 0),
    }
}

/// What the byte at a position between tokens does.
pub(crate) fn find_mark(bytes: &[u8], p: usize) -> (r: Mark)
    requires
        p < bytes@.len(),
    ensures
        r == mark_at(bytes@, p as int),
{
    let b: u8 = bytes[p];
    let doubled: bool = bytes.len() - p > 1 && bytes[p + 1] == b;
    if check_class(b, ByteClass::Gap) || check_class(b, ByteClass::Plain) {
        Mark::Leads(Place::Between)
    } else if b == 37 {
        Mark::Leads(Place::Comment)
    } else if b == 40 {
        Mark::Leads(Place::Text)
    } else if b == 47 {
        Mark::Leads(Place::Name)
    } else if b == 91 {
        Mark::OpensArray
    } else if b == 93 {
        Mark::ClosesArray
    } else if b == 60 {
        if doubled {
            Mark::OpensDictionary
        } else {
            Mark::Leads(Place::Hex)
        }
    } else if b == 62 && doubled {
        Mark::ClosesDictionary
    } else {
        Mark::Stops
    }
}

// ---------------------------------------------------------------------------------------------
// Nesting
// ---------------------------------------------------------------------------------------------

/// How deep arrays and dictionaries may be nested. A parser that descends into them needs room on the
/// stack for each level.
pub const MAX_DEPTH: usize = 32;

/// Where the array or dictionary ends of which position `p` is part, at the given depth, place and
/// number of open round brackets: `Some(Some(end))`; `Some(None)` where it does not end before
/// something that belongs to no object; `None` where it is nested too deeply before that.
pub open spec fn nesting(bytes: Seq<u8>, p: int, depth: int, place: Place, open: int) -> Option<
    Option<int>,
>
    decreases bytes.len() - p,
{
    if p < 0 || p >= bytes.len() {
        Some(None)
    } else if goes_on(place, bytes[p]) {
        let (next, left) = place_behind(place, open, bytes[p]);
        nesting(bytes, p + 1, depth, next, left)
    } else {
        match mark_at(bytes, p) {
            Mark::Leads(next) => nesting(bytes, p + 1, depth, next, 1),
            Mark::OpensArray => if depth >= MAX_DEPTH {
                None
            } else {
                nesting(bytes, p + 1, depth + 1, Place::Between, 0)
            },
            Mark::OpensDictionary => if depth >= MAX_DEPTH {
                None
            } else {
                nesting(bytes, p + 2, depth + 1, Place::Between, 0)
            },
            Mark::ClosesArray => if depth <= 1 {
                Some(Some(p + 1))
            } else {
                nesting(bytes, p + 1, depth - 1, Place::Between, 0)
            },
            Mark::ClosesDictionary => if depth <= 1 {
                Some(Some(p + 2))
            } else {
                nesting(bytes, p + 2, depth - 1, Place::Between, 0)
            },
            Mark::Stops => Some(None),
        }
    }
}

/// Where the array or dictionary ends that starts at a position.
pub open spec fn nested_end(bytes: Seq<u8>, p: int) -> Option<Option<int>> {
    nesting(bytes, p, 0, Place::Between, 0)
}

/// Whether an array or a dictionary may start at a position.
pub open spec fn opens_at(bytes: Seq<u8>, p: int) -> bool {
    0 <= p < bytes.len() && (mark_at(bytes, p) == Mark::OpensArray || mark_at(bytes, p)
        == Mark::OpensDictionary)
}

/// Whether no array and no dictionary, wherever it starts, is nested too deeply.
pub open spec fn is_shallow(bytes: Seq<u8>) -> bool {
    forall|i: int| #[trigger] opens_at(bytes, i) ==> nested_end(bytes, i) is Some
}

/// Where the array or dictionary ends that starts at a position.
pub(crate) fn find_nested_end(bytes: &[u8], start: usize) -> (r: Option<Option<usize>>)
    requires
        start <= bytes@.len(),
    ensures
        match r {
            Some(Some(e)) => nested_end(bytes@, start as int) == Some(Some(e as int)) && start < e
                <= bytes@.len(),
            Some(None) => nested_end(bytes@, start as int) == Some(None::<int>),
            None => nested_end(bytes@, start as int) is None,
        },
{
    let n: usize = bytes.len();
    let mut p: usize = start;
    let mut depth: usize = 0;
    let mut place: Place = Place::Between;
    let mut open: usize = 0;
    while p < n
        invariant
            start <= p <= n == bytes@.len(),
            depth <= MAX_DEPTH,
            open <= p,
            nesting(bytes@, p as int, depth as int, place, open as int) == nested_end(
                bytes@,
                start as int,
            ),
        decreases n - p,
    {
        let b: u8 = bytes[p];
        if check_goes_on(place, b) {
            let (next, left) = find_place(place, open, b);
            place = next;
            open = left;
            p = p + 1;
        } else {
            match find_mark(bytes, p) {
                Mark::Leads(next) => {
                    place = next;
                    open = 1;
                    p = p + 1;
                },
                Mark::OpensArray => {
                    if depth >= MAX_DEPTH {
                        return None;
                    }
                    depth = depth + 1;
                    place = Place::Between;
                    open = 0;
                    p = p + 1;
                },
                Mark::OpensDictionary => {
                    if depth >= MAX_DEPTH {
                        return None;
                    }
                    depth = depth + 1;
                    place = Place::Between;
                    open = 0;
                    p = p + 2;
                },
                Mark::ClosesArray => {
                    if depth <= 1 {
                        return Some(Some(p + 1));
                    }
                    depth = depth - 1;
                    place = Place::Between;
                    open = 0;
                    p = p + 1;
                },
                Mark::ClosesDictionary => {
                    if depth <= 1 {
                        return Some(Some(p + 2));
                    }
                    depth = depth - 1;
                    place = Place::Between;
                    open = 0;
                    p = p + 2;
                },
                Mark::Stops => {
                    return Some(None);
                },
            }
        }
    }
    Some(None)
}

/// Whether no array and no dictionary is nested too deeply.
pub(crate) fn check_shallow(bytes: &[u8]) -> (r: bool)
    ensures
        r == is_shallow(bytes@),
{
    let mut i: usize = 0;
    while i < bytes.len()
        invariant
            i <= bytes@.len(),
            forall|k: int| 0 <= k < i && #[trigger] opens_at(bytes@, k) ==> nested_end(bytes@, k) is Some,
        decreases bytes@.len() - i,
    {
        let opens: bool = match find_mark(bytes, i) {
            Mark::OpensArray => true,
            Mark::OpensDictionary => true,
            _ => false,
        };
        assert(opens == opens_at(bytes@, i as int));
        if opens {
            match find_nested_end(bytes, i) {
                Some(_) => {},
                None => {
                    return false;
                },
            }
        }
        i = i + 1;
    }
    true
}

// ---------------------------------------------------------------------------------------------
// Names
// ---------------------------------------------------------------------------------------------

/// Whether a byte is a hexadecimal digit.
pub open spec fn is_hex_byte(b: u8) -> bool {
    48 <= b <= 57 || 65 <= b <= 70 || 97 <= b <= 102
}

/// The value of a hexadecimal digit.
pub open spec fn hex_byte_value(b: u8) -> int {
    if b <= 57 {
        b - 48
    } else if b <= 70 {
        b - 55
    } else {
        b - 87
    }
}

/// The byte of a name that is written at a position, and where the next one is: a byte may be written
/// as `#` with two hexadecimal digits. `None` where the name ends.
pub open spec fn name_byte(bytes: Seq<u8>, i: int) -> Option<(int, int)> {
    if i < 0 || i >= bytes.len() || !is_regular(bytes[i]) {
        None
    } else if bytes[i] == 35 && i + 2 < bytes.len() && is_hex_byte(bytes[i + 1]) && is_hex_byte(
        bytes[i + 2],
    ) {
        Some((hex_byte_value(bytes[i + 1]) * 16 + hex_byte_value(bytes[i + 2]), i + 3))
    } else {
        Some((bytes[i] as int, i + 1))
    }
}

/// Where the rest of a name ends that is written from `i` on, if it is the given text from its byte
/// `k` on.
pub open spec fn rest_of_name(bytes: Seq<u8>, i: int, text: Seq<u8>, k: int) -> Option<int>
    decreases text.len() - k,
{
    match name_byte(bytes, i) {
        None => if k == text.len() {
            Some(i)
        } else {
            None
        },
        Some((b, next)) => if 0 <= k < text.len() && b == text[k] {
            rest_of_name(bytes, next, text, k + 1)
        } else {
            None
        },
    }
}

/// Where the given name ends, if it is written at a position.
pub open spec fn name_end(bytes: Seq<u8>, p: int, text: Seq<u8>) -> Option<int> {
    if 0 <= p < bytes.len() && bytes[p] == 47 {
        rest_of_name(bytes, p + 1, text, 0)
    } else {
        None
    }
}

/// The value of a hexadecimal digit.
fn hex_digit_value(b: u8) -> (r: Option<u8>)
    ensures
        r is Some <==> is_hex_byte(b),
        r matches Some(v) ==> v == hex_byte_value(b) && v < 16,
{
    if 48 <= b && b <= 57 {
        Some((b - 48) as u8)
    } else if 65 <= b && b <= 70 {
        Some((b - 55) as u8)
    } else if 97 <= b && b <= 102 {
        Some((b - 87) as u8)
    } else {
        None
    }
}

/// The byte of a name that is written at a position, and where the next one is.
fn find_name_byte(bytes: &[u8], i: usize) -> (r: Option<(u8, usize)>)
    requires
        i <= bytes@.len(),
    ensures
        match r {
            Some((b, next)) => name_byte(bytes@, i as int) == Some((b as int, next as int)) && i < next
                <= bytes@.len(),
            None => name_byte(bytes@, i as int) is None,
        },
{
    if i >= bytes.len() || !check_class(bytes[i], ByteClass::Regular) {
        return None;
    }
    if bytes[i] == 35 && bytes.len() - i > 2 {
        match (hex_digit_value(bytes[i + 1]), hex_digit_value(bytes[i + 2])) {
            (Some(h), Some(l)) => {
                return Some((h * 16 + l, i + 3));
            },
            _ => {},
        }
    }
    Some((bytes[i], i + 1))
}

/// Where the given name ends, if it is written at a position.
pub(crate) fn find_name_end(bytes: &[u8], p: usize, text: &[u8]) -> (r: Option<usize>)
    requires
        p < bytes@.len(),
    ensures
        match r {
            Some(e) => name_end(bytes@, p as int, text@) == Some(e as int) && p < e <= bytes@.len(),
            None => name_end(bytes@, p as int, text@) is None,
        },
{
    if bytes[p] != 47 {
        return None;
    }
    let mut i: usize = p + 1;
    let mut k: usize = 0;
    while k < text.len()
        invariant
            p < i <= bytes@.len(),
            k <= text@.len(),
            rest_of_name(bytes@, i as int, text@, k as int) == name_end(bytes@, p as int, text@),
        decreases text@.len() - k,
    {
        match find_name_byte(bytes, i) {
            Some((b, next)) => {
                if b != text[k] {
                    return None;
                }
                i = next;
                k = k + 1;
            },
            None => {
                return None;
            },
        }
    }
    match find_name_byte(bytes, i) {
        Some(_) => None,
        None => Some(i),
    }
}

} // verus!
