//! The texts that a failed check reports, and the joining of path segments.

use vstd::prelude::*;

verus! {

/// The message of a value that differs from the one that was expected.
pub open spec fn expected_text(expected: Seq<char>, actual: Seq<char>) -> Seq<char> {
    "Expected '"@ + expected + "', got '"@ + actual + "'"@
}

/// The message of an expected element that the actual container lacks.
pub open spec fn missing_text(element: Seq<char>) -> Seq<char> {
    "Missing '"@ + element + "'"@
}

/// The message of a field that the target cannot have at all.
pub open spec fn absent_text(field: Seq<char>) -> Seq<char> {
    "Missing "@ + field
}

/// `part` stands somewhere in `whole`, as one unbroken run of characters.
pub open spec fn occurs_in(part: Seq<char>, whole: Seq<char>) -> bool {
    exists|start: int|
        0 <= start && start + part.len() <= whole.len() && #[trigger] whole.subrange(
            start,
            start + part.len(),
        ) == part
}

/// The parts in order, with `sep` between each two neighbours.
pub open spec fn joined(parts: Seq<Seq<char>>, sep: Seq<char>) -> Seq<char>
    decreases parts.len(),
{
    if parts.len() == 0 {
        Seq::empty()
    } else if parts.len() == 1 {
        parts[0]
    } else {
        joined(parts.drop_last(), sep) + sep + parts.last()
    }
}

/// What stands between two segments of a path.
pub open spec fn path_separator() -> Seq<char> {
    "::"@
}

/// The views of a sequence of strings.
pub open spec fn texts(strings: Seq<String>) -> Seq<Seq<char>> {
    strings.map_values(|s: String| s@)
}

/// A message of a mismatch names the expected value and the actual one, each
/// in full.
pub proof fn lemma_expected_text_shows_both(expected: Seq<char>, actual: Seq<char>)
    ensures
        occurs_in(expected, expected_text(expected, actual)),
        occurs_in(actual, expected_text(expected, actual)),
{
    let whole = expected_text(expected, actual);
    let head = "Expected '"@;
    let middle = "', got '"@;
    let at_expected = head.len() as int;
    let at_actual = (head.len() + expected.len() + middle.len()) as int;
    assert(whole.subrange(at_expected, at_expected + expected.len()) =~= expected);
    assert(whole.subrange(at_actual, at_actual + actual.len()) =~= actual);
}

/// A message of a missing element names that element in full.
pub proof fn lemma_missing_text_shows_element(element: Seq<char>)
    ensures
        occurs_in(element, missing_text(element)),
{
    let whole = missing_text(element);
    let at = "Missing '"@.len() as int;
    assert(whole.subrange(at, at + element.len()) =~= element);
}

/// A message of an absent field ends in the field's name.
pub proof fn lemma_absent_text_shows_field(field: Seq<char>)
    ensures
        occurs_in(field, absent_text(field)),
{
    let whole = absent_text(field);
    let at = "Missing "@.len() as int;
    assert(whole.subrange(at, at + field.len()) =~= field);
}

/// Builds the message of a mismatch.
pub fn expected_message(expected: &str, actual: &str) -> (message: String)
    ensures
        message@ == expected_text(expected@, actual@),
{
    let mut message = String::from_str("Expected '");
    message.append(expected);
    message.append("', got '");
    message.append(actual);
    message.append("'");
    message
}

/// Builds the message of a missing element.
pub fn missing_message(element: &str) -> (message: String)
    ensures
        message@ == missing_text(element@),
{
    let mut message = String::from_str("Missing '");
    message.append(element);
    message.append("'");
    message
}

/// Builds the message of an absent field.
pub fn absent_message(field: &str) -> (message: String)
    ensures
        message@ == absent_text(field@),
{
    let mut message = String::from_str("Missing ");
    message.append(field);
    message
}

/// Joins the segments of a path with `::`.
pub fn join_path(segments: &Vec<String>) -> (path: String)
    ensures
        path@ == joined(texts(segments@), path_separator()),
{
    let mut path = String::new();
    let mut i: usize = 0;
    while i < segments.len()
        invariant
            i <= segments.len(),
            path@ == joined(texts(segments@).take(i as int), path_separator()),
        decreases segments.len() - i,
    {
        let ghost before = texts(segments@).take(i as int);
        let ghost after = texts(segments@).take(i + 1);
        assert(after.drop_last() =~= before);
        if i > 0 {
            path.append("::");
        }
        path.append(segments[i].as_str());
        i = i + 1;
    }
    assert(texts(segments@).take(segments.len() as int) =~= texts(segments@));
    path
}

} // verus!
