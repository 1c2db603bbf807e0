//! How texts fall into lines, words and fields, piece by piece.

use vstd::prelude::*;
use crate::scan;
use crate::text;

verus! {

/// The text holds no white space.
pub open spec fn unbroken(s: Seq<char>) -> bool {
    forall|i: int| 0 <= i < s.len() ==> !scan::is_space(#[trigger] s[i])
}

/// The character does not occur in the text.
pub open spec fn lacks(s: Seq<char>, c: char) -> bool {
    forall|i: int| 0 <= i < s.len() ==> #[trigger] s[i] != c
}

/// What can be seen of the first characters is no white space; blanks, tabs and the ends
/// of lines are.
pub proof fn what_is_seen_is_no_white_space(c: char)
    ensures
        0x21 <= c as u32 <= 0x7e ==> !scan::is_space(c),
        scan::is_space(' ') && scan::is_space('\t') && scan::is_space('\n') && scan::is_space(
            '\r',
        ),
{
}

/// A word goes up to the next white space: behind it come the words of the rest. White
/// space in front of a text makes no word.
pub proof fn a_word_ends_at_white_space(word: Seq<char>, c: char, rest: Seq<char>)
    requires
        unbroken(word),
        scan::is_space(c),
    ensures
        word.len() > 0 ==> scan::words(word.push(c) + rest) == seq![word] + scan::words(rest),
        word.len() > 0 ==> scan::words(word) == seq![word],
        scan::words(seq![c] + rest) == scan::words(rest),
        scan::words(Seq::empty()) == Seq::<Seq<char>>::empty(),
{
    let s = seq![c] + rest;
    assert(s.skip(1) =~= rest);
    if word.len() > 0 {
        let all = word.push(c) + rest;
        let n = word.len() as int;
        assert forall|i: int| 0 <= i < n implies !scan::is_space(#[trigger] all[i]) by {
            assert(all[i] == word[i]);
        }
        assert(all[n] == c);
        scan::lemma_before_space(all, n);
        assert(all.take(n) =~= word);
        assert(all.skip(n) =~= s);
        assert(scan::words(s) == scan::words(rest));
        assert(!scan::is_space(all[0]));
        assert(scan::words(all) == seq![all.take(n)] + scan::words(all.skip(n)));
        scan::lemma_before_space(word, n);
        assert(word.take(n) =~= word);
        assert(word.skip(n) =~= Seq::<char>::empty());
        assert(scan::words(word.skip(n)) =~= Seq::<Seq<char>>::empty());
        assert(scan::words(word) =~= seq![word]);
    }
}

/// A line goes up to the next line feed, without a carriage return in front of that;
/// behind it come the lines of the rest. The last line may end with the text.
pub proof fn a_line_ends_at_its_line_feed(line: Seq<char>, rest: Seq<char>)
    requires
        lacks(line, '\n'),
    ensures
        scan::lines(line.push('\n') + rest) == seq![line] + scan::lines(rest) || (line.len() > 0
            && line.last() == '\r'),
        scan::lines(line.push('\r').push('\n') + rest) == seq![line] + scan::lines(rest),
        line.len() > 0 ==> scan::lines(line) == seq![line],
        scan::lines(Seq::empty()) == Seq::<Seq<char>>::empty(),
{
    let n = line.len() as int;
    let all = line.push('\n') + rest;
    assert forall|i: int| 0 <= i < n implies #[trigger] all[i] != '\n' by {
        assert(all[i] == line[i]);
    }
    scan::lemma_before_char(all, '\n', n);
    assert(all.take(n) =~= line);
    assert(all.skip(n + 1) =~= rest);
    let two = line.push('\r').push('\n') + rest;
    assert forall|i: int| 0 <= i < n + 1 implies #[trigger] two[i] != '\n' by {
        if i < n {
            assert(two[i] == line[i]);
        }
    }
    scan::lemma_before_char(two, '\n', n + 1);
    assert(two.take(n + 1) =~= line.push('\r'));
    assert(line.push('\r').drop_last() =~= line);
    assert(two.skip(n + 2) =~= rest);
    if n > 0 {
        scan::lemma_before_char(line, '\n', n);
    }
}

/// The text is all white space.
pub open spec fn blank(s: Seq<char>) -> bool {
    forall|i: int| 0 <= i < s.len() ==> scan::is_space(#[trigger] s[i])
}

/// Trimming takes the white space off both ends of a text, and nothing else.
pub proof fn trimming_takes_the_white_space_off(front: Seq<char>, s: Seq<char>, back: Seq<char>)
    requires
        blank(front),
        blank(back),
        s.len() > 0 ==> !scan::is_space(s[0]) && !scan::is_space(s.last()),
    ensures
        scan::trimmed(front + s + back) == s,
{
    let all = front + s + back;
    lemma_trim_start(front, s + back);
    assert(front + (s + back) =~= all);
    if s.len() > 0 {
        assert((s + back)[0] == s[0]);
        lemma_trim_end(s, back);
    } else {
        assert(s + back =~= back);
        lemma_trim_start(back, Seq::empty());
        assert(back + Seq::<char>::empty() =~= back);
        assert(scan::trim_start(back) =~= Seq::<char>::empty());
        assert(s =~= Seq::<char>::empty());
    }
}

proof fn lemma_trim_start(front: Seq<char>, s: Seq<char>)
    requires
        blank(front),
    ensures
        scan::trim_start(front + s) == scan::trim_start(s),
    decreases front.len(),
{
    if front.len() == 0 {
        assert(front + s =~= s);
    } else {
        let rest = front.skip(1);
        assert((front + s).skip(1) =~= rest + s);
        assert((front + s)[0] == front[0]);
        assert forall|i: int| 0 <= i < rest.len() implies scan::is_space(#[trigger] rest[i]) by {
            assert(rest[i] == front[i + 1]);
        }
        lemma_trim_start(rest, s);
    }
}

proof fn lemma_trim_end(s: Seq<char>, back: Seq<char>)
    requires
        blank(back),
        s.len() > 0,
        !scan::is_space(s.last()),
    ensures
        scan::trim_end(s + back) == s,
    decreases back.len(),
{
    if back.len() == 0 {
        assert(s + back =~= s);
    } else {
        let rest = back.drop_last();
        assert((s + back).drop_last() =~= s + rest);
        assert((s + back).last() == back[back.len() - 1]);
        assert forall|i: int| 0 <= i < rest.len() implies scan::is_space(#[trigger] rest[i]) by {
            assert(rest[i] == back[i]);
        }
        lemma_trim_end(s, rest);
    }
}

/// A field of a list goes up to the next comma. It is a number of the list where it is
/// one but for white space around it; behind it come the numbers of the rest.
pub proof fn a_field_ends_at_its_comma(field: Seq<char>, rest: Seq<char>)
    requires
        lacks(field, ','),
    ensures
        ({
            let head = match text::parsed(scan::trimmed(field)) {
                Some(n) => seq![n],
                None => Seq::empty(),
            };
            &&& scan::number_list(field) == head
            &&& scan::number_list(field.push(',') + rest) == head + scan::number_list(rest)
        }),
{
    let n = field.len() as int;
    let all = field.push(',') + rest;
    assert forall|i: int| 0 <= i < n implies #[trigger] all[i] != ',' by {
        assert(all[i] == field[i]);
    }
    scan::lemma_before_char(all, ',', n);
    assert(all.take(n) =~= field);
    assert(all.skip(n + 1) =~= rest);
    scan::lemma_before_char(field, ',', n);
}

} // verus!
