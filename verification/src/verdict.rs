//! Reading a yes-or-no verdict out of a reply.
use crate::text;
use vstd::prelude::*;

verus! {

/// How many characters come before the first line break.
pub open spec fn line_len(s: Seq<char>) -> nat
    decreases s.len(),
{
    if s.len() == 0 || s[0] == '\n' {
        0
    } else {
        1 + line_len(s.skip(1))
    }
}

/// A character that only decorates the start of a line.
pub open spec fn is_mark(c: char) -> bool {
    c == '*' || c == '#' || c == '-' || c == '>' || c == ' '
}

/// Text without the decoration at its start.
pub open spec fn unmarked(s: Seq<char>) -> Seq<char>
    decreases s.len(),
{
    if s.len() > 0 && is_mark(s[0]) {
        unmarked(s.skip(1))
    } else {
        s
    }
}

/// An ASCII letter.
pub open spec fn is_letter(c: char) -> bool {
    ('a' <= c && c <= 'z') || ('A' <= c && c <= 'Z')
}

/// A letter in lower case.
pub open spec fn lower(c: char) -> char {
    if 'A' <= c && c <= 'Z' {
        ((c as u8) + 32) as u8 as char
    } else {
        c
    }
}

/// The letters a text starts with, in lower case.
pub open spec fn first_word(s: Seq<char>) -> Seq<char>
    decreases s.len(),
{
    if s.len() > 0 && is_letter(s[0]) {
        seq![lower(s[0])] + first_word(s.skip(1))
    } else {
        Seq::empty()
    }
}

/// The verdict a word stands for.
pub open spec fn word_verdict(word: Seq<char>) -> Option<bool> {
    if word == "yes"@ || word == "true"@ {
        Some(true)
    } else if word == "no"@ || word == "false"@ {
        Some(false)
    } else {
        None
    }
}

/// What a line says, without the space around it and its decoration.
pub open spec fn said(line: Seq<char>) -> Seq<char> {
    unmarked(text::trimmed(line))
}

/// The verdict of a reply: that of the first word of the first line that says
/// something.
pub open spec fn verdict(s: Seq<char>) -> Option<bool>
    decreases s.len(),
{
    let n = line_len(s);
    let content = said(s.take(n as int));
    if content.len() > 0 {
        word_verdict(first_word(content))
    } else if n < s.len() {
        verdict(s.skip(n as int + 1))
    } else {
        None
    }
}

proof fn lemma_line_len(s: Seq<char>, n: int)
    requires
        0 <= n <= s.len(),
        forall|i: int| 0 <= i < n ==> s[i] != '\n',
        n < s.len() ==> s[n] == '\n',
    ensures
        line_len(s) == n,
    decreases s.len(),
{
    if n > 0 {
        assert(s[0] != '\n');
        assert forall|i: int| 0 <= i < n - 1 implies s.skip(1)[i] != '\n' by {
            assert(s.skip(1)[i] == s[i + 1]);
        }
        lemma_line_len(s.skip(1), n - 1);
    }
}

proof fn lemma_unmarked(s: Seq<char>, k: int)
    requires
        0 <= k <= s.len(),
        forall|i: int| 0 <= i < k ==> is_mark(s[i]),
        k < s.len() ==> !is_mark(s[k]),
    ensures
        unmarked(s) == s.skip(k),
    decreases s.len(),
{
    if k > 0 {
        assert(is_mark(s[0]));
        assert forall|i: int| 0 <= i < k - 1 implies is_mark(s.skip(1)[i]) by {
            assert(s.skip(1)[i] == s[i + 1]);
        }
        lemma_unmarked(s.skip(1), k - 1);
        assert(s.skip(1).skip(k - 1) =~= s.skip(k));
    } else {
        assert(s.skip(0) =~= s);
    }
}

fn line_verdict(line: &str) -> (res: Option<Option<bool>>)
    ensures
        res == (if said(line@).len() > 0 {
            Some(word_verdict(first_word(said(line@))))
        } else {
            None
        }),
{
    let trimmed = text::trim(line);
    let chars = text::chars_of(trimmed);
    let mut start: usize = 0;
    while start < chars.len() && (chars[start] == '*' || chars[start] == '#' || chars[start] == '-'
        || chars[start] == '>' || chars[start] == ' ')
        invariant
            start <= chars@.len(),
            forall|i: int| 0 <= i < start ==> is_mark(#[trigger] chars@[i]),
        decreases chars@.len() - start,
    {
        start += 1;
    }
    proof {
        lemma_unmarked(chars@, start as int);
    }
    if start == chars.len() {
        return None;
    }
    let ghost content = chars@.skip(start as int);
    let mut word = String::new();
    let mut k: usize = start;
    proof {
        assert(content.skip(0) =~= content);
        assert(word@ + first_word(content.skip(0)) =~= first_word(content));
    }
    while k < chars.len() && (('a' <= chars[k] && chars[k] <= 'z') || ('A' <= chars[k] && chars[k]
        <= 'Z'))
        invariant
            start <= k <= chars@.len(),
            content == chars@.skip(start as int),
            word@ + first_word(content.skip(k - start)) == first_word(content),
        ensures
            k < chars@.len() ==> !is_letter(chars@[k as int]),
        decreases chars@.len() - k,
    {
        let c = chars[k];
        let l: char = if 'A' <= c && c <= 'Z' {
            (c as u8 + 32) as char
        } else {
            c
        };
        proof {
            let rest = content.skip(k - start);
            assert(rest[0] == c);
            assert(rest.skip(1) =~= content.skip(k + 1 - start));
            assert(word@ + (seq![l] + first_word(content.skip(k + 1 - start))) =~= word@.push(l)
                + first_word(content.skip(k + 1 - start)));
        }
        word.push(l);
        k += 1;
    }
    proof {
        let rest = content.skip(k - start);
        if k < chars@.len() {
            assert(rest[0] == chars@[k as int]);
        }
        assert(first_word(rest) =~= Seq::empty());
        assert(word@ =~= first_word(content));
    }
    let w = word.as_str();
    if text::same(w, "yes") || text::same(w, "true") {
        Some(Some(true))
    } else if text::same(w, "no") || text::same(w, "false") {
        proof {
            reveal_strlit("yes");
            reveal_strlit("true");
            reveal_strlit("no");
            reveal_strlit("false");
        }
        Some(Some(false))
    } else {
        Some(None)
    }
}

/// Reads a yes-or-no verdict out of a reply.
///
/// Only the opening of the reply is considered. A model that has answered "NO"
/// and then explains what a "yes" would have looked like must not be read as
/// having said yes, and the first word is the only part of a free-text reply
/// whose meaning is unambiguous.
pub fn parse_verdict(reply: &str) -> (res: Option<bool>)
    ensures
        res == verdict(reply@),
{
    let chars = text::chars_of(reply);
    let mut start: usize = 0;
    proof {
        assert(reply@.skip(0) =~= reply@);
    }
    loop
        invariant
            chars@ == reply@,
            start <= chars@.len(),
            verdict(reply@.skip(start as int)) == verdict(reply@),
        decreases chars@.len() - start,
    {
        let ghost rest = reply@.skip(start as int);
        let mut end: usize = start;
        while end < chars.len() && chars[end] != '\n'
            invariant
                chars@ == reply@,
                start <= end <= chars@.len(),
                forall|i: int| start <= i < end ==> #[trigger] reply@[i] != '\n',
            ensures
                end < chars@.len() ==> reply@[end as int] == '\n',
            decreases chars@.len() - end,
        {
            end += 1;
        }
        let line = reply.substring_char(start, end);
        proof {
            assert forall|i: int| 0 <= i < end - start implies rest[i] != '\n' by {
                assert(rest[i] == reply@[i + start]);
            }
            lemma_line_len(rest, end - start);
            assert(line@ =~= rest.take(end - start));
        }
        match line_verdict(line) {
            Some(found) => {
                return found;
            },
            None => {
                if end >= chars.len() {
                    return None;
                }
                proof {
                    assert(rest.skip(end - start + 1) =~= reply@.skip(end + 1));
                }
                start = end + 1;
            },
        }
    }
}

/// Only the first line that says something counts: whatever follows it leaves
/// the verdict as it is.
pub proof fn law_verdict_ignores_later_lines(first: Seq<char>, later: Seq<char>)
    requires
        forall|i: int| 0 <= i < first.len() ==> first[i] != '\n',
        said(first).len() > 0,
    ensures
        verdict(first + seq!['\n'] + later) == verdict(first),
        verdict(first) == word_verdict(first_word(said(first))),
{
    let whole = first + seq!['\n'] + later;
    assert forall|i: int| 0 <= i < first.len() implies whole[i] != '\n' by {
        assert(whole[i] == first[i]);
    }
    lemma_line_len(whole, first.len() as int);
    lemma_line_len(first, first.len() as int);
    assert(whole.take(first.len() as int) =~= first);
    assert(first.take(first.len() as int) =~= first);
}

/// Whether a text is a word in lower case, whatever case its own letters are.
pub open spec fn spells(text: Seq<char>, word: Seq<char>) -> bool {
    text.len() == word.len() && forall|i: int|
        #![trigger text[i]]
        0 <= i < text.len() ==> text[i] == word[i] || ('A' <= text[i] && text[i] <= 'Z'
            && text[i] as int + 32 == word[i] as int)
}

/// Whether a text holds nothing but line breaks and what decorates the start of a line.
pub open spec fn only_decorates(s: Seq<char>) -> bool {
    forall|i: int|
        0 <= i < s.len() ==> #[trigger] s[i] == '\n' || s[i] == '*' || s[i] == '#' || s[i] == '-'
            || s[i] == '>' || s[i] == ' '
}

proof fn lemma_unmarked_after(marks: Seq<char>, tail: Seq<char>)
    requires
        forall|i: int| 0 <= i < marks.len() ==> is_mark(#[trigger] marks[i]),
        tail.len() > 0 ==> !is_mark(tail[0]),
    ensures
        unmarked(marks + tail) == tail,
    decreases marks.len(),
{
    if marks.len() == 0 {
        assert(marks + tail =~= tail);
    } else {
        assert((marks + tail)[0] == marks[0]);
        assert((marks + tail).skip(1) =~= marks.skip(1) + tail);
        lemma_unmarked_after(marks.skip(1), tail);
    }
}

proof fn lemma_trimmed_back_after(front: Seq<char>, tail: Seq<char>)
    requires
        tail.len() > 0,
        !text::is_space(tail[0]),
    ensures
        text::trimmed_back(front + tail) == front + text::trimmed_back(tail),
        text::trimmed_back(tail).len() > 0,
        text::trimmed_back(tail).is_prefix_of(tail),
    decreases tail.len(),
{
    assert((front + tail).last() == tail.last());
    if text::is_space(tail.last()) {
        assert((front + tail).drop_last() =~= front + tail.drop_last());
        lemma_trimmed_back_after(front, tail.drop_last());
        let kept = text::trimmed_back(tail);
        assert(kept =~= tail.subrange(0, kept.len() as int)) by {
            assert(kept =~= tail.drop_last().subrange(0, kept.len() as int));
        }
    } else {
        assert(tail =~= tail.subrange(0, tail.len() as int));
    }
}

proof fn lemma_trimmed_front_before(marks: Seq<char>, tail: Seq<char>) -> (j: int)
    requires
        tail.len() > 0,
        !text::is_space(tail[0]),
    ensures
        0 <= j <= marks.len(),
        text::trimmed_front(marks + tail) == marks.skip(j) + tail,
    decreases marks.len(),
{
    if marks.len() == 0 {
        assert(marks + tail =~= tail);
        assert(marks.skip(0) + tail =~= tail);
        0
    } else {
        assert((marks + tail)[0] == marks[0]);
        if text::is_space(marks[0]) {
            assert((marks + tail).skip(1) =~= marks.skip(1) + tail);
            let j = lemma_trimmed_front_before(marks.skip(1), tail);
            assert(marks.skip(1).skip(j) =~= marks.skip(j + 1));
            j + 1
        } else {
            assert(marks.skip(0) =~= marks);
            0
        }
    }
}

proof fn lemma_said(marks: Seq<char>, tail: Seq<char>)
    requires
        forall|i: int| 0 <= i < marks.len() ==> is_mark(#[trigger] marks[i]),
        tail.len() > 0,
        !is_mark(tail[0]),
        !text::is_space(tail[0]),
    ensures
        said(marks + tail) == text::trimmed_back(tail),
        text::trimmed_back(tail).len() > 0,
        text::trimmed_back(tail).is_prefix_of(tail),
{
    let j = lemma_trimmed_front_before(marks, tail);
    lemma_trimmed_back_after(marks.skip(j), tail);
    let kept = text::trimmed_back(tail);
    assert(kept[0] == tail.subrange(0, kept.len() as int)[0]);
    lemma_unmarked_after(marks.skip(j), kept);
}

proof fn lemma_nothing_said(marks: Seq<char>)
    requires
        forall|i: int| 0 <= i < marks.len() ==> is_mark(#[trigger] marks[i]),
    ensures
        said(marks).len() == 0,
{
    let (front, back) = text::law_trimming_takes_the_ends_only(marks);
    let kept = text::trimmed(marks);
    assert forall|i: int| 0 <= i < kept.len() implies is_mark(#[trigger] kept[i]) by {
        assert(marks[front.len() + i] == kept[i]);
    }
    lemma_unmarked_after(kept, Seq::empty());
    assert(kept + Seq::<char>::empty() =~= kept);
}

proof fn lemma_first_word(word: Seq<char>, rest: Seq<char>)
    requires
        forall|i: int| 0 <= i < word.len() ==> is_letter(#[trigger] word[i]),
        rest.len() > 0 ==> !is_letter(rest[0]),
    ensures
        first_word(word + rest) == word.map_values(|c: char| lower(c)),
    decreases word.len(),
{
    if word.len() == 0 {
        assert(word + rest =~= rest);
        assert(word.map_values(|c: char| lower(c)) =~= Seq::empty());
    } else {
        assert((word + rest)[0] == word[0]);
        assert((word + rest).skip(1) =~= word.skip(1) + rest);
        lemma_first_word(word.skip(1), rest);
        assert(word.map_values(|c: char| lower(c)) =~= seq![lower(word[0])] + word.skip(
            1,
        ).map_values(|c: char| lower(c)));
    }
}

proof fn lemma_spells(word: Seq<char>, wanted: Seq<char>)
    requires
        forall|i: int| 0 <= i < word.len() ==> is_letter(#[trigger] word[i]),
        forall|i: int|
            0 <= i < wanted.len() ==> 'a' <= #[trigger] wanted[i] && wanted[i] <= 'z',
    ensures
        word.map_values(|c: char| lower(c)) == wanted <==> spells(word, wanted),
{
    let small = word.map_values(|c: char| lower(c));
    if small == wanted {
        assert forall|i: int| #![trigger word[i]] 0 <= i < word.len() implies word[i] == wanted[i]
            || ('A' <= word[i] && word[i] <= 'Z' && word[i] as int + 32 == wanted[i] as int) by {
            assert(small[i] == wanted[i]);
        }
    }
    if spells(word, wanted) {
        assert forall|i: int| 0 <= i < small.len() implies small[i] == wanted[i] by {
            assert(word[i] == wanted[i] || word[i] as int + 32 == wanted[i] as int);
        }
        assert(small =~= wanted);
    }
}

/// The verdict of a reply is its first word, past line breaks and decoration and whatever
/// follows it: yes or true for a yes, no or false for a no, in either case of letters.
/// Any other word is no verdict.
pub proof fn law_verdict_is_the_first_word(lead: Seq<char>, word: Seq<char>, rest: Seq<char>)
    requires
        only_decorates(lead),
        word.len() > 0,
        forall|i: int|
            0 <= i < word.len() ==> ('a' <= #[trigger] word[i] && word[i] <= 'z') || ('A'
                <= word[i] && word[i] <= 'Z'),
        rest.len() > 0 ==> !(('a' <= rest[0] && rest[0] <= 'z') || ('A' <= rest[0] && rest[0]
            <= 'Z')),
    ensures
        verdict(lead + word + rest) == Some(true) <==> spells(word, "yes"@) || spells(
            word,
            "true"@,
        ),
        verdict(lead + word + rest) == Some(false) <==> spells(word, "no"@) || spells(
            word,
            "false"@,
        ),
    decreases lead.len(),
{
    let s = lead + word + rest;
    reveal_strlit("yes");
    reveal_strlit("true");
    reveal_strlit("no");
    reveal_strlit("false");
    assert forall|i: int| 0 <= i < word.len() implies is_letter(#[trigger] word[i]) by {
    }
    if exists|k: int| 0 <= k < lead.len() && lead[k] == '\n' {
        let k = lemma_first_break(lead);
        let marks = lead.take(k);
        let later = lead.skip(k + 1);
        assert forall|i: int| 0 <= i < k implies s[i] != '\n' by {
            assert(s[i] == lead[i]);
        }
        assert(s[k] == lead[k]);
        lemma_line_len(s, k);
        assert(s.take(k) =~= marks);
        assert forall|i: int| 0 <= i < marks.len() implies is_mark(#[trigger] marks[i]) by {
            assert(marks[i] == lead[i]);
        }
        lemma_nothing_said(marks);
        assert(s.skip(k + 1) =~= later + word + rest);
        assert forall|i: int| 0 <= i < later.len() implies #[trigger] later[i] == '\n' || later[i]
            == '*' || later[i] == '#' || later[i] == '-' || later[i] == '>' || later[i] == ' ' by {
            assert(later[i] == lead[k + 1 + i]);
        }
        law_verdict_is_the_first_word(later, word, rest);
    } else {
        assert forall|i: int| 0 <= i < lead.len() implies is_mark(#[trigger] lead[i]) by {
            assert(lead[i] != '\n');
        }
        let n = lemma_break_or_end(rest);
        let end = (lead.len() + word.len() + n) as int;
        assert forall|i: int| 0 <= i < end implies s[i] != '\n' by {
            if i < lead.len() {
                assert(s[i] == lead[i]);
            } else if i < lead.len() + word.len() {
                assert(s[i] == word[i - lead.len()]);
            } else {
                assert(s[i] == rest[i - lead.len() - word.len()]);
            }
        }
        if n < rest.len() {
            assert(s[end] == rest[n]);
        }
        lemma_line_len(s, end);
        let tail = word + rest.take(n);
        assert(s.take(end) =~= lead + tail);
        assert(tail[0] == word[0]);
        assert(!text::is_space(tail[0]));
        lemma_said(lead, tail);
        let kept = text::trimmed_back(tail);
        lemma_trimmed_back_keeps_word(word, rest.take(n));
        assert(kept.len() >= word.len());
        let more = kept.skip(word.len() as int);
        assert(kept =~= word + more) by {
            assert(kept =~= tail.subrange(0, kept.len() as int));
        }
        if more.len() > 0 {
            assert(more[0] == rest[0]);
        }
        lemma_first_word(word, more);
        lemma_spells(word, "yes"@);
        lemma_spells(word, "true"@);
        lemma_spells(word, "no"@);
        lemma_spells(word, "false"@);
        assert("yes"@.len() == 3 && "true"@.len() == 4 && "no"@.len() == 2 && "false"@.len() == 5);
    }
}

proof fn lemma_trimmed_back_keeps_word(word: Seq<char>, more: Seq<char>)
    requires
        word.len() > 0,
        forall|i: int| 0 <= i < word.len() ==> is_letter(#[trigger] word[i]),
    ensures
        text::trimmed_back(word + more).len() >= word.len(),
    decreases more.len(),
{
    let whole = word + more;
    if more.len() == 0 {
        assert(whole =~= word);
        assert(is_letter(word[word.len() - 1]));
    } else if text::is_space(whole.last()) {
        assert(whole.drop_last() =~= word + more.drop_last());
        lemma_trimmed_back_keeps_word(word, more.drop_last());
    }
}

proof fn lemma_first_break(lead: Seq<char>) -> (k: int)
    requires
        exists|k: int| 0 <= k < lead.len() && lead[k] == '\n',
    ensures
        0 <= k < lead.len(),
        lead[k] == '\n',
        forall|i: int| 0 <= i < k ==> lead[i] != '\n',
{
    let n = lemma_break_or_end(lead);
    if n == lead.len() {
        let k = choose|k: int| 0 <= k < lead.len() && lead[k] == '\n';
        assert(lead[k] != '\n');
    }
    n
}

proof fn lemma_break_or_end(s: Seq<char>) -> (n: int)
    ensures
        0 <= n <= s.len(),
        forall|i: int| 0 <= i < n ==> s[i] != '\n',
        n < s.len() ==> s[n] == '\n',
    decreases s.len(),
{
    if s.len() == 0 || s[0] == '\n' {
        0
    } else {
        let rest = s.skip(1);
        let m = lemma_break_or_end(rest);
        assert forall|i: int| 0 <= i < m + 1 implies s[i] != '\n' by {
            if i > 0 {
                assert(rest[i - 1] == s[i]);
            }
        }
        m + 1
    }
}

} // verus!
