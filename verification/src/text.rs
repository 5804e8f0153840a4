//! Text as sequences of characters: lines, fields and strings.
//!
//! A table is read from text in two steps: the text is cut into lines, and
//! each line into fields. Both steps are splits at one separating
//! character, which [`split_of`] defines.

use vstd::prelude::*;

verus! {

/// The character that ends a line.
pub const LINE_FEED: char = '\n';

/// The character that may stand before a line feed and then belongs to the
/// line ending.
pub const CARRIAGE_RETURN: char = '\r';

/// The character that parts the fields of a line.
pub const FIELD_SEPARATOR: char = ';';

/// The character that parts the components of a path.
pub const PATH_SEPARATOR: char = '/';

/// `String::push` of the standard library appends one character to the
/// end of the string and changes nothing else.
pub assume_specification[ String::push ](s: &mut String, ch: char)
    ensures
        final(s)@ == old(s)@.push(ch),
;

/// The parts into which the occurrences of `sep` cut `s`, in order. Read
/// from left to right, a separator closes the part before it and opens a
/// new, empty one; any other character joins the part that is open. So
/// there is one part more than there are separators, and the empty text
/// has one empty part.
pub open spec fn split_of(s: Seq<char>, sep: char) -> Seq<Seq<char>>
    decreases s.len(),
{
    if s.len() == 0 {
        seq![Seq::<char>::empty()]
    } else {
        let parts = split_of(s.drop_last(), sep);
        if s.last() == sep {
            parts.push(Seq::<char>::empty())
        } else {
            parts.drop_last().push(parts.last().push(s.last()))
        }
    }
}

/// The parts `parts` written one after the other with `sep` between each
/// two of them.
pub open spec fn join_of(parts: Seq<Seq<char>>, sep: char) -> Seq<char>
    decreases parts.len(),
{
    if parts.len() == 0 {
        Seq::<char>::empty()
    } else if parts.len() == 1 {
        parts[0]
    } else {
        join_of(parts.drop_last(), sep).push(sep) + parts.last()
    }
}

/// `line` without the carriage return at its end, if it has one.
pub open spec fn strip_cr(line: Seq<char>) -> Seq<char> {
    if line.len() > 0 && line.last() == CARRIAGE_RETURN {
        line.drop_last()
    } else {
        line
    }
}

/// The lines of `text`. A line ends at a line feed; a carriage return
/// directly before that line feed belongs to the line ending. What follows
/// the last line feed is a line too, taken as it stands, unless it is
/// empty. No line holds its line ending.
pub open spec fn lines_of(text: Seq<char>) -> Seq<Seq<char>> {
    let parts = split_of(text, LINE_FEED);
    let ended = parts.drop_last().map_values(|line: Seq<char>| strip_cr(line));
    if parts.last().len() == 0 {
        ended
    } else {
        ended.push(parts.last())
    }
}

/// The fields of `line`: its parts between semicolons.
pub open spec fn fields_of(line: Seq<char>) -> Seq<Seq<char>> {
    split_of(line, FIELD_SEPARATOR)
}

/// The last component of `path`: what follows its last slash, or all of it
/// where it has none.
pub open spec fn file_name_of(path: Seq<char>) -> Seq<char> {
    split_of(path, PATH_SEPARATOR).last()
}

/// Whether no part of `parts` holds `sep`.
pub open spec fn free_of(parts: Seq<Seq<char>>, sep: char) -> bool {
    forall|i: int, j: int| 0 <= i < parts.len() && 0 <= j < parts[i].len() ==> parts[i][j] != sep
}

/// A split yields at least one part, no part holds the separator, and the
/// parts joined by the separator are the text again.
pub proof fn lemma_split_of(s: Seq<char>, sep: char)
    ensures
        split_of(s, sep).len() >= 1,
        free_of(split_of(s, sep), sep),
        join_of(split_of(s, sep), sep) == s,
    decreases s.len(),
{
    if s.len() > 0 {
        let before = split_of(s.drop_last(), sep);
        let parts = split_of(s, sep);
        lemma_split_of(s.drop_last(), sep);
        if s.last() == sep {
            assert(parts.drop_last() == before);
            assert(join_of(parts, sep) == s);
        } else if before.len() == 1 {
            assert(parts == seq![before[0].push(s.last())]);
            assert(before[0] == s.drop_last());
            assert(join_of(parts, sep) == s);
        } else {
            let head = join_of(before.drop_last(), sep).push(sep);
            assert(parts.drop_last() == before.drop_last());
            assert(s == s.drop_last().push(s.last()));
            assert((head + before.last()).push(s.last()) == head + before.last().push(s.last()));
        }
    }
}

/// The split of a text is the only way to cut it at every separator:
/// parts that hold no separator and give the text when joined by it are
/// the parts of the split.
pub proof fn lemma_split_unique(s: Seq<char>, sep: char, parts: Seq<Seq<char>>)
    requires
        parts.len() >= 1,
        free_of(parts, sep),
        join_of(parts, sep) == s,
    ensures
        parts == split_of(s, sep),
    decreases s.len(),
{
    let last = parts.last();
    if parts.len() == 1 && last.len() == 0 {
        assert(parts =~~= seq![Seq::<char>::empty()]);
    } else if last.len() == 0 {
        let before = parts.drop_last();
        assert(s =~= join_of(before, sep).push(sep));
        assert(s.drop_last() =~= join_of(before, sep));
        lemma_split_unique(s.drop_last(), sep, before);
        assert(parts =~~= before.push(Seq::<char>::empty()));
    } else {
        let before = parts.drop_last().push(last.drop_last());
        assert(before.drop_last() =~= parts.drop_last());
        assert(last =~= last.drop_last().push(last.last()));
        assert(parts[parts.len() - 1][last.len() - 1] != sep);
        if parts.len() == 1 {
            assert(s.drop_last() =~= join_of(before, sep));
        } else {
            let head = join_of(parts.drop_last(), sep).push(sep);
            assert(s =~= (head + last.drop_last()).push(last.last()));
            assert(s.drop_last() =~= join_of(before, sep));
        }
        assert(free_of(before, sep)) by {
            assert forall|i: int, j: int|
                0 <= i < before.len() && 0 <= j < before[i].len() implies before[i][j] != sep by {
                assert(before[i][j] == parts[i][j]);
            }
        }
        lemma_split_unique(s.drop_last(), sep, before);
        assert(parts =~= before.drop_last().push(before.last().push(s.last())));
    }
}

/// The characters of `text`, in order.
pub fn chars_of(text: &str) -> (out: Vec<char>)
    ensures
        out@ == text@,
{
    let mut out: Vec<char> = Vec::new();
    for c in it: text.chars()
        invariant
            out@ == it.seq().take(it.index()),
            it.seq() == text@,
    {
        out.push(c);
    }
    out
}

/// The string that holds the characters `chars`.
pub fn string_of(chars: &Vec<char>) -> (out: String)
    ensures
        out@ == chars@,
{
    let mut out = String::new();
    let mut i: usize = 0;
    while i < chars.len()
        invariant
            i <= chars.len(),
            out@ == chars@.take(i as int),
        decreases chars.len() - i,
    {
        out.push(chars[i]);
        i += 1;
    }
    out
}

/// The strings that hold the characters of each of `parts`.
pub fn strings_of(parts: &Vec<Vec<char>>) -> (out: Vec<String>)
    ensures
        out.deep_view() == parts.deep_view(),
{
    let mut out: Vec<String> = Vec::new();
    let mut i: usize = 0;
    while i < parts.len()
        invariant
            i <= parts.len(),
            out.deep_view() == parts.deep_view().take(i as int),
        decreases parts.len() - i,
    {
        let ghost done = out.deep_view();
        out.push(string_of(&parts[i]));
        assert(out.deep_view() =~~= done.push(parts[i as int]@));
        assert(parts.deep_view().take(i + 1) =~~= done.push(parts[i as int]@));
        i += 1;
    }
    out
}

/// Cuts `s` at each occurrence of `sep`.
pub fn split(s: &Vec<char>, sep: char) -> (parts: Vec<Vec<char>>)
    ensures
        parts.deep_view() == split_of(s@, sep),
{
    let mut parts: Vec<Vec<char>> = Vec::new();
    let mut open: Vec<char> = Vec::new();
    let mut i: usize = 0;
    assert(s@.take(0) == Seq::<char>::empty());
    while i < s.len()
        invariant
            i <= s.len(),
            parts.deep_view().push(open@) == split_of(s@.take(i as int), sep),
        decreases s.len() - i,
    {
        let ghost closed = parts.deep_view();
        let ghost before = open@;
        assert(s@.take(i + 1).drop_last() == s@.take(i as int));
        if s[i] == sep {
            parts.push(open);
            open = Vec::new();
            assert(parts.deep_view() =~~= closed.push(before));
        } else {
            open.push(s[i]);
            assert(closed.push(before).drop_last() == closed);
        }
        i += 1;
    }
    assert(s@.take(i as int) == s@);
    let ghost closed = parts.deep_view();
    parts.push(open);
    assert(parts.deep_view() =~~= closed.push(open@));
    parts
}

/// Cuts `text` into its lines.
pub fn split_lines(text: &Vec<char>) -> (lines: Vec<Vec<char>>)
    ensures
        lines.deep_view() == lines_of(text@),
{
    let mut lines: Vec<Vec<char>> = Vec::new();
    let mut open: Vec<char> = Vec::new();
    let mut i: usize = 0;
    assert(text@.take(0) == Seq::<char>::empty());
    while i < text.len()
        invariant
            i <= text.len(),
            split_of(text@.take(i as int), LINE_FEED).len() >= 1,
            lines.deep_view() == split_of(text@.take(i as int), LINE_FEED).drop_last().map_values(
                |line: Seq<char>| strip_cr(line),
            ),
            open@ == split_of(text@.take(i as int), LINE_FEED).last(),
        decreases text.len() - i,
    {
        let ghost ended = lines.deep_view();
        let ghost parts = split_of(text@.take(i as int), LINE_FEED);
        assert(text@.take(i + 1).drop_last() == text@.take(i as int));
        if text[i] == LINE_FEED {
            if open.len() > 0 && open[open.len() - 1] == CARRIAGE_RETURN {
                open.pop();
            }
            lines.push(open);
            open = Vec::new();
            assert(lines.deep_view() =~~= ended.push(strip_cr(parts.last())));
            assert(parts.push(Seq::<char>::empty()).drop_last() == parts);
            assert(parts.map_values(|line: Seq<char>| strip_cr(line)) == ended.push(
                strip_cr(parts.last()),
            ));
        } else {
            open.push(text[i]);
            assert(parts.drop_last().push(parts.last().push(text@[i as int])).drop_last()
                == parts.drop_last());
        }
        i += 1;
    }
    assert(text@.take(i as int) == text@);
    if open.len() > 0 {
        let ghost ended = lines.deep_view();
        lines.push(open);
        assert(lines.deep_view() =~~= ended.push(open@));
    }
    lines
}

/// The lines of `text`, each as a string.
pub fn lines(text: &str) -> (out: Vec<String>)
    ensures
        out.deep_view() == lines_of(text@),
{
    let chars = chars_of(text);
    let parts = split_lines(&chars);
    strings_of(&parts)
}

/// The fields of `line`, each as a string.
pub fn fields(line: &str) -> (out: Vec<String>)
    ensures
        out.deep_view() == fields_of(line@),
{
    let chars = chars_of(line);
    let parts = split(&chars, FIELD_SEPARATOR);
    strings_of(&parts)
}

/// The last component of `path`.
pub fn file_name(path: &str) -> (name: String)
    ensures
        name@ == file_name_of(path@),
{
    let chars = chars_of(path);
    let parts = split(&chars, PATH_SEPARATOR);
    proof {
        lemma_split_of(chars@, PATH_SEPARATOR);
    }
    assert(parts.deep_view().last() == parts[parts.len() - 1]@);
    string_of(&parts[parts.len() - 1])
}

} // verus!
