//! Text building blocks: trimming, joining, decimal numbers, ordering.
use vstd::prelude::*;
use vstd::string::StringExecFns;

verus! {

/// `String::push` appends one character to the end of the text.
pub assume_specification[ String::push ](s: &mut String, c: char)
    ensures
        final(s)@ == old(s)@.push(c),
;

/// Characters with the Unicode White_Space property.
pub open spec fn is_space(c: char) -> bool {
    let n = c as u32;
    ||| 0x9 <= n <= 0xd
    ||| n == 0x20
    ||| n == 0x85
    ||| n == 0xa0
    ||| n == 0x1680
    ||| 0x2000 <= n <= 0x200a
    ||| n == 0x2028
    ||| n == 0x2029
    ||| n == 0x202f
    ||| n == 0x205f
    ||| n == 0x3000
}

/// Whether a character is white space.
pub fn char_is_space(c: char) -> (res: bool)
    ensures
        res == is_space(c),
{
    let n: u32 = c as u32;
    (0x9 <= n && n <= 0xd) || n == 0x20 || n == 0x85 || n == 0xa0 || n == 0x1680 || (0x2000 <= n
        && n <= 0x200a) || n == 0x2028 || n == 0x2029 || n == 0x202f || n == 0x205f || n == 0x3000
}

/// Text without its leading white space.
pub open spec fn trimmed_front(s: Seq<char>) -> Seq<char>
    decreases s.len(),
{
    if s.len() > 0 && is_space(s[0]) {
        trimmed_front(s.skip(1))
    } else {
        s
    }
}

/// Text without its trailing white space.
pub open spec fn trimmed_back(s: Seq<char>) -> Seq<char>
    decreases s.len(),
{
    if s.len() > 0 && is_space(s.last()) {
        trimmed_back(s.drop_last())
    } else {
        s
    }
}

/// Text without white space at either end.
pub open spec fn trimmed(s: Seq<char>) -> Seq<char> {
    trimmed_back(trimmed_front(s))
}

/// Text that is empty or white space only.
pub open spec fn is_blank(s: Seq<char>) -> bool {
    forall|i: int| 0 <= i < s.len() ==> is_space(#[trigger] s[i])
}

proof fn lemma_trimmed_front(s: Seq<char>, k: int)
    requires
        0 <= k <= s.len(),
        forall|i: int| 0 <= i < k ==> is_space(#[trigger] s[i]),
        k < s.len() ==> !is_space(s[k]),
    ensures
        trimmed_front(s) == s.skip(k),
    decreases s.len(),
{
    if k > 0 {
        let t = s.skip(1);
        assert forall|i: int| 0 <= i < k - 1 implies is_space(#[trigger] t[i]) by {
            assert(t[i] == s[i + 1]);
        }
        lemma_trimmed_front(t, k - 1);
        assert(t.skip(k - 1) =~= s.skip(k));
    } else {
        assert(s.skip(0) =~= s);
    }
}

proof fn lemma_trimmed_back(s: Seq<char>, k: int)
    requires
        0 <= k <= s.len(),
        forall|i: int| k <= i < s.len() ==> is_space(#[trigger] s[i]),
        k > 0 ==> !is_space(s[k - 1]),
    ensures
        trimmed_back(s) == s.take(k),
    decreases s.len(),
{
    if k < s.len() {
        let t = s.drop_last();
        lemma_trimmed_back(t, k);
        assert(t.take(k) =~= s.take(k));
    } else {
        assert(s.take(k) =~= s);
    }
}

/// Trimmed text is empty exactly when there was nothing but white space.
pub proof fn lemma_trimmed_empty(s: Seq<char>)
    ensures
        trimmed(s).len() == 0 <==> is_blank(s),
    decreases s.len(),
{
    if s.len() > 0 && is_space(s[0]) {
        lemma_trimmed_empty(s.skip(1));
        let t = s.skip(1);
        if is_blank(t) {
            assert forall|i: int| 0 <= i < s.len() implies is_space(#[trigger] s[i]) by {
                if i > 0 {
                    assert(s[i] == t[i - 1]);
                }
            }
        }
        if is_blank(s) {
            assert forall|i: int| 0 <= i < t.len() implies is_space(#[trigger] t[i]) by {
                assert(t[i] == s[i + 1]);
            }
        }
    } else if s.len() > 0 {
        lemma_trimmed_back_keeps(s);
    }
}

proof fn lemma_trimmed_back_keeps(s: Seq<char>)
    requires
        s.len() > 0,
        !is_space(s[0]),
    ensures
        trimmed_back(s).len() > 0,
    decreases s.len(),
{
    if is_space(s.last()) {
        lemma_trimmed_back_keeps(s.drop_last());
    }
}

proof fn lemma_front_ends(s: Seq<char>)
    ensures
        trimmed_front(s).len() > 0 ==> !is_space(trimmed_front(s)[0]),
    decreases s.len(),
{
    if s.len() > 0 && is_space(s[0]) {
        lemma_front_ends(s.skip(1));
    }
}

proof fn lemma_back_ends(s: Seq<char>)
    ensures
        trimmed_back(s).len() > 0 ==> !is_space(trimmed_back(s).last()) && trimmed_back(s)[0] == s[0],
    decreases s.len(),
{
    if s.len() > 0 && is_space(s.last()) {
        lemma_back_ends(s.drop_last());
    }
}

/// Text that was trimmed stays as it is when trimmed again, and is blank only where the
/// text was.
pub proof fn lemma_trimmed_twice(s: Seq<char>)
    ensures
        trimmed(trimmed(s)) == trimmed(s),
        is_blank(trimmed(s)) <==> is_blank(s),
{
    lemma_front_ends(s);
    lemma_back_ends(trimmed_front(s));
    lemma_trimmed_empty(s);
    lemma_trimmed_empty(trimmed(s));
}

/// The characters of a text.
pub fn chars_of(s: &str) -> (res: Vec<char>)
    ensures
        res@ == s@,
{
    let mut out: Vec<char> = Vec::new();
    for c in it: s.chars()
        invariant
            out@ == s@.take(it.index()),
            it.seq() == s@,
    {
        out.push(c);
        proof {
            assert(s@.take(it.index() + 1) =~= s@.take(it.index()).push(c));
        }
    }
    proof {
        assert(s@.take(s@.len() as int) =~= s@);
    }
    out
}

/// Removes white space from both ends.
pub fn trim<'a>(s: &'a str) -> (res: &'a str)
    ensures
        res@ == trimmed(s@),
{
    let chars = chars_of(s);
    let mut start: usize = 0;
    while start < chars.len() && char_is_space(chars[start])
        invariant
            chars@ == s@,
            start <= chars.len(),
            forall|i: int| 0 <= i < start ==> is_space(#[trigger] s@[i]),
        decreases chars.len() - start,
    {
        start += 1;
    }
    let mut end: usize = chars.len();
    while end > start && char_is_space(chars[end - 1])
        invariant
            chars@ == s@,
            start <= end <= chars.len(),
            forall|i: int| end <= i < s@.len() ==> is_space(#[trigger] s@[i]),
        decreases end,
    {
        end -= 1;
    }
    proof {
        lemma_trimmed_front(s@, start as int);
        let t = s@.skip(start as int);
        assert forall|i: int| end - start <= i < t.len() implies is_space(#[trigger] t[i]) by {
            assert(t[i] == s@[i + start]);
        }
        lemma_trimmed_back(t, end - start);
        assert(t.take(end - start) =~= s@.subrange(start as int, end as int));
    }
    s.substring_char(start, end)
}

/// Whether a text is empty or holds white space only.
pub fn blank(s: &str) -> (res: bool)
    ensures
        res == is_blank(s@),
{
    proof {
        lemma_trimmed_empty(s@);
    }
    let t = trim(s);
    t.is_empty()
}

/// The text of a number in base ten.
pub open spec fn decimal(n: nat) -> Seq<char>
    decreases n,
{
    if n < 10 {
        seq![digit(n)]
    } else {
        decimal(n / 10).push(digit(n % 10))
    }
}

/// The character of a digit.
pub open spec fn digit(d: nat) -> char {
    ((48 + d) as u8) as char
}

/// Writes a number in base ten.
pub fn number(n: u128) -> (res: String)
    ensures
        res@ == decimal(n as nat),
    decreases n,
{
    let d: u8 = (n % 10) as u8;
    let c: char = (48u8 + d) as char;
    let mut out: String = if n < 10 {
        String::new()
    } else {
        number(n / 10)
    };
    out.push(c);
    proof {
        assert(out@ =~= decimal(n as nat));
    }
    out
}

/// Different numbers are written differently.
pub proof fn lemma_decimal_injective(a: nat, b: nat)
    requires
        decimal(a) == decimal(b),
    ensures
        a == b,
    decreases a,
{
    let x = decimal(a);
    let y = decimal(b);
    assert(x.last() == digit(a % 10));
    assert(y.last() == digit(b % 10));
    assert(a % 10 == b % 10);
    lemma_decimal_nonempty(a / 10);
    lemma_decimal_nonempty(b / 10);
    if a >= 10 && b >= 10 {
        assert(x.drop_last() =~= decimal(a / 10));
        assert(y.drop_last() =~= decimal(b / 10));
        lemma_decimal_injective(a / 10, b / 10);
    }
}

/// A number takes at least one digit.
pub proof fn lemma_decimal_nonempty(a: nat)
    ensures
        decimal(a).len() > 0,
{
}

/// Texts that start alike and are equal end alike.
pub proof fn lemma_same_prefix(p: Seq<char>, a: Seq<char>, b: Seq<char>)
    requires
        p + a == p + b,
    ensures
        a == b,
{
    assert(a =~= (p + a).skip(p.len() as int));
    assert(b =~= (p + b).skip(p.len() as int));
}

/// Joins two texts.
pub fn cat2(a: &str, b: &str) -> (res: String)
    ensures
        res@ == a@ + b@,
{
    let mut out = a.to_owned();
    out.append(b);
    out
}

/// Joins three texts.
pub fn cat3(a: &str, b: &str, c: &str) -> (res: String)
    ensures
        res@ == a@ + b@ + c@,
{
    let mut out = cat2(a, b);
    out.append(c);
    out
}

/// Joins four texts.
pub fn cat4(a: &str, b: &str, c: &str, d: &str) -> (res: String)
    ensures
        res@ == a@ + b@ + c@ + d@,
{
    let mut out = cat3(a, b, c);
    out.append(d);
    out
}

/// Joins five texts.
pub fn cat5(a: &str, b: &str, c: &str, d: &str, e: &str) -> (res: String)
    ensures
        res@ == a@ + b@ + c@ + d@ + e@,
{
    let mut out = cat4(a, b, c, d);
    out.append(e);
    out
}

/// The parts of a text, with a separator between them.
pub open spec fn joined(parts: Seq<Seq<char>>, sep: Seq<char>) -> Seq<char>
    decreases parts.len(),
{
    if parts.len() == 0 {
        Seq::empty()
    } else if parts.len() == 1 {
        parts[0]
    } else {
        joined(parts.drop_last(), sep) + sep + parts.last()
    }
}

/// Joins parts with a separator between them.
pub fn join(parts: &Vec<String>, sep: &str) -> (res: String)
    ensures
        res@ == joined(crate::graph::texts(parts@), sep@),
{
    let mut out = String::new();
    let ghost all = crate::graph::texts(parts@);
    for k in 0..parts.len()
        invariant
            all == crate::graph::texts(parts@),
            out@ == joined(all.take(k as int), sep@),
    {
        if k > 0 {
            out.append(sep);
        }
        out.append(parts[k].as_str());
        proof {
            assert(all.take(k + 1).drop_last() =~= all.take(k as int));
            if k == 0 {
                assert(out@ =~= parts@[0]@);
            }
        }
    }
    proof {
        assert(all.take(all.len() as int) =~= all);
    }
    out
}

/// The parts of a text, one after the other.
pub open spec fn flat(parts: Seq<Seq<char>>) -> Seq<char>
    decreases parts.len(),
{
    if parts.len() == 0 {
        Seq::empty()
    } else {
        flat(parts.drop_last()) + parts.last()
    }
}

/// Whether two texts are the same.
pub fn same(a: &str, b: &str) -> (res: bool)
    ensures
        res == (a@ == b@),
{
    let x = chars_of(a);
    let y = chars_of(b);
    if x.len() != y.len() {
        return false;
    }
    for k in 0..x.len()
        invariant
            x@ == a@,
            y@ == b@,
            x.len() == y.len(),
            forall|i: int| 0 <= i < k ==> x@[i] == y@[i],
    {
        if x[k] != y[k] {
            return false;
        }
    }
    proof {
        assert(a@ =~= b@);
    }
    true
}

/// Adding one part to several adds it at the end of the text.
pub proof fn lemma_flat_push(parts: Seq<Seq<char>>, part: Seq<char>)
    ensures
        flat(parts.push(part)) == flat(parts) + part,
{
    assert(parts.push(part).drop_last() =~= parts);
}

/// A list, one item to a line.
pub open spec fn bulleted(items: Seq<Seq<char>>) -> Seq<char> {
    flat(items.map_values(|item: Seq<char>| "- "@ + item + "\n"@))
}

/// Writes a list, one item to a line.
pub fn bullets(items: &Vec<String>) -> (res: String)
    ensures
        res@ == bulleted(crate::graph::texts(items@)),
{
    let mut out = String::new();
    let ghost f = |item: Seq<char>| "- "@ + item + "\n"@;
    let ghost all = crate::graph::texts(items@).map_values(f);
    proof {
        assert(all.take(0) =~= Seq::empty());
    }
    for k in 0..items.len()
        invariant
            f == (|item: Seq<char>| "- "@ + item + "\n"@),
            all == crate::graph::texts(items@).map_values(f),
            out@ == flat(all.take(k as int)),
    {
        let line = cat3("- ", items[k].as_str(), "\n");
        out.append(line.as_str());
        proof {
            assert(all[k as int] == line@);
            assert(all.take(k + 1) =~= all.take(k as int).push(line@));
            lemma_flat_push(all.take(k as int), line@);
        }
    }
    proof {
        assert(all.take(all.len() as int) =~= all);
    }
    out
}

/// Whether one text comes before another, character by character.
pub open spec fn comes_before(a: Seq<char>, b: Seq<char>) -> bool
    decreases a.len(),
{
    if b.len() == 0 {
        false
    } else if a.len() == 0 {
        true
    } else if a[0] != b[0] {
        a[0] < b[0]
    } else {
        comes_before(a.skip(1), b.skip(1))
    }
}

/// Of two texts one comes before the other unless they are the same, and no text comes
/// before itself.
pub proof fn lemma_before_total(a: Seq<char>, b: Seq<char>)
    ensures
        !(comes_before(a, b) && comes_before(b, a)),
        comes_before(a, b) || comes_before(b, a) || a == b,
        a == b ==> !comes_before(a, b),
    decreases a.len(),
{
    if a.len() > 0 && b.len() > 0 {
        if a[0] == b[0] {
            lemma_before_total(a.skip(1), b.skip(1));
            if a.skip(1) == b.skip(1) {
                assert(a =~= seq![a[0]] + a.skip(1));
                assert(b =~= seq![b[0]] + b.skip(1));
            }
        }
    } else if a.len() == 0 && b.len() == 0 {
        assert(a =~= b);
    }
}

/// What comes before a text that comes before another comes before that one.
pub proof fn lemma_before_transitive(a: Seq<char>, b: Seq<char>, c: Seq<char>)
    requires
        comes_before(a, b),
        comes_before(b, c),
    ensures
        comes_before(a, c),
    decreases a.len(),
{
    if a.len() > 0 && a[0] == b[0] && b[0] == c[0] {
        lemma_before_transitive(a.skip(1), b.skip(1), c.skip(1));
    }
}

/// Tells whether one text comes before another, character by character.
pub fn less(a: &str, b: &str) -> (res: bool)
    ensures
        res == comes_before(a@, b@),
{
    let x = chars_of(a);
    let y = chars_of(b);
    let mut k: usize = 0;
    proof {
        assert(a@.skip(0) =~= a@);
        assert(b@.skip(0) =~= b@);
    }
    while k < x.len() && k < y.len()
        invariant
            x@ == a@,
            y@ == b@,
            k <= x@.len(),
            k <= y@.len(),
            comes_before(a@, b@) == comes_before(a@.skip(k as int), b@.skip(k as int)),
        decreases x@.len() - k,
    {
        proof {
            assert(a@.skip(k as int).skip(1) =~= a@.skip(k + 1));
            assert(b@.skip(k as int).skip(1) =~= b@.skip(k + 1));
        }
        if x[k] != y[k] {
            return x[k] < y[k];
        }
        k += 1;
    }
    k < y.len()
}

/// Whether two lists hold the same texts.
pub fn same_texts(a: &Vec<String>, b: &Vec<String>) -> (res: bool)
    ensures
        res == (crate::graph::texts(a@) == crate::graph::texts(b@)),
{
    let ghost x = crate::graph::texts(a@);
    let ghost y = crate::graph::texts(b@);
    proof {
        assert(x.len() == a@.len());
        assert(y.len() == b@.len());
    }
    if a.len() != b.len() {
        return false;
    }
    for k in 0..a.len()
        invariant
            x == crate::graph::texts(a@),
            y == crate::graph::texts(b@),
            a@.len() == b@.len(),
            forall|i: int| 0 <= i < k ==> x[i] == y[i],
    {
        if a[k] != b[k] {
            proof {
                assert(x[k as int] != y[k as int]);
            }
            return false;
        }
    }
    proof {
        assert(x =~= y);
    }
    true
}

/// A text without characters.
pub fn none() -> (res: String)
    ensures
        res@ == Seq::<char>::empty(),
{
    let res = String::new();
    proof {
        assert(res@ =~= Seq::empty());
    }
    res
}

/// A number in base ten, with its sign where it is below zero.
pub open spec fn signed_decimal(n: int) -> Seq<char> {
    if n < 0 {
        "-"@ + decimal((-n) as nat)
    } else {
        decimal(n as nat)
    }
}

/// Writes a number in base ten, with its sign where it is below zero.
pub fn signed_number(n: i64) -> (res: String)
    ensures
        res@ == signed_decimal(n as int),
{
    if n < 0 {
        let size: i128 = -(n as i128);
        cat2("-", number(size as u128).as_str())
    } else {
        number(n as u128)
    }
}

/// Whether a text stands in another one at a place.
pub open spec fn stands_at(part: Seq<char>, whole: Seq<char>, at: int) -> bool {
    0 <= at && at + part.len() <= whole.len() && whole.subrange(at, at + part.len()) == part
}

/// Whether a text stands somewhere in another one, in one piece.
pub open spec fn part_of(part: Seq<char>, whole: Seq<char>) -> bool {
    exists|at: int| stands_at(part, whole, at)
}

/// What stands between two texts is part of them together.
pub proof fn lemma_part(before: Seq<char>, part: Seq<char>, after: Seq<char>)
    ensures
        part_of(part, before + part + after),
{
    let whole = before + part + after;
    assert(whole.subrange(before.len() as int, (before.len() + part.len()) as int) =~= part);
    assert(stands_at(part, whole, before.len() as int));
}

/// What a text starts with is part of it.
pub proof fn lemma_part_first(part: Seq<char>, after: Seq<char>)
    ensures
        part_of(part, part + after),
{
    lemma_part(Seq::empty(), part, after);
    assert(Seq::<char>::empty() + part =~= part);
}

/// What a text ends with is part of it.
pub proof fn lemma_part_last(before: Seq<char>, part: Seq<char>)
    ensures
        part_of(part, before + part),
{
    lemma_part(before, part, Seq::empty());
    assert(before + part + Seq::<char>::empty() =~= before + part);
}

/// A part of a part is a part.
pub proof fn lemma_part_within(part: Seq<char>, middle: Seq<char>, whole: Seq<char>)
    requires
        part_of(part, middle),
        part_of(middle, whole),
    ensures
        part_of(part, whole),
{
    let a = choose|at: int| stands_at(part, middle, at);
    let b = choose|at: int| stands_at(middle, whole, at);
    assert(whole.subrange(b + a, b + a + part.len()) =~= middle.subrange(a, a + part.len()));
    assert(stands_at(part, whole, b + a));
}

/// Parts one after the other are just that.
pub proof fn law_flat_is_flattened(parts: Seq<Seq<char>>)
    ensures
        flat(parts) == parts.flatten(),
    decreases parts.len(),
{
    parts.lemma_flatten_and_flatten_alt_are_equivalent();
    if parts.len() > 0 {
        law_flat_is_flattened(parts.drop_last());
        parts.drop_last().lemma_flatten_and_flatten_alt_are_equivalent();
    }
}

/// Each of some parts is part of all of them together.
pub proof fn lemma_part_of_flat(parts: Seq<Seq<char>>, i: int)
    requires
        0 <= i < parts.len(),
    ensures
        part_of(parts[i], flat(parts)),
    decreases parts.len(),
{
    let rest = parts.drop_last();
    let nothing = Seq::<char>::empty();
    if i < rest.len() {
        lemma_part_of_flat(rest, i);
        lemma_part(nothing, flat(rest), parts.last());
        assert(nothing + flat(rest) + parts.last() =~= flat(parts));
        lemma_part_within(parts[i], flat(rest), flat(parts));
    } else {
        lemma_part(flat(rest), parts[i], nothing);
        assert(flat(rest) + parts[i] + nothing =~= flat(parts));
    }
}

/// Trimming a text takes white space from its ends and nothing else: what is left neither
/// starts nor ends with any.
pub proof fn law_trimming_takes_the_ends_only(s: Seq<char>) -> (ends: (Seq<char>, Seq<char>))
    ensures
        s == ends.0 + trimmed(s) + ends.1,
        forall|i: int| 0 <= i < ends.0.len() ==> is_space(#[trigger] ends.0[i]),
        forall|i: int| 0 <= i < ends.1.len() ==> is_space(#[trigger] ends.1[i]),
        trimmed(s).len() > 0 ==> !is_space(trimmed(s)[0]) && !is_space(trimmed(s).last()),
{
    lemma_trimmed_twice(s);
    let front = lemma_front_taken(s);
    let back = lemma_back_taken(trimmed_front(s));
    lemma_front_ends(s);
    lemma_back_ends(trimmed_front(s));
    assert(s =~= front + trimmed(s) + back);
    (front, back)
}

proof fn lemma_front_taken(s: Seq<char>) -> (front: Seq<char>)
    ensures
        s == front + trimmed_front(s),
        forall|i: int| 0 <= i < front.len() ==> is_space(#[trigger] front[i]),
    decreases s.len(),
{
    if s.len() > 0 && is_space(s[0]) {
        let rest = lemma_front_taken(s.skip(1));
        let front = seq![s[0]] + rest;
        assert(s =~= seq![s[0]] + s.skip(1));
        assert(s =~= seq![s[0]] + (rest + trimmed_front(s)));
        assert(s =~= front + trimmed_front(s));
        front
    } else {
        assert(s =~= Seq::<char>::empty() + s);
        Seq::empty()
    }
}

proof fn lemma_back_taken(s: Seq<char>) -> (back: Seq<char>)
    ensures
        s == trimmed_back(s) + back,
        forall|i: int| 0 <= i < back.len() ==> is_space(#[trigger] back[i]),
    decreases s.len(),
{
    if s.len() > 0 && is_space(s.last()) {
        let rest = lemma_back_taken(s.drop_last());
        let back = rest.push(s.last());
        assert(s =~= s.drop_last().push(s.last()));
        assert(s =~= (trimmed_back(s) + rest).push(s.last()));
        assert(s =~= trimmed_back(s) + back);
        back
    } else {
        assert(s =~= s + Seq::<char>::empty());
        Seq::empty()
    }
}

/// The number that a text of digits says.
pub open spec fn said(digits: Seq<char>) -> int
    decreases digits.len(),
{
    if digits.len() == 0 {
        0
    } else {
        said(digits.drop_last()) * 10 + (digits.last() as int - '0' as int)
    }
}

/// A number is written in digits that say it, without a zero in front.
pub proof fn law_numbers_read_back(n: nat)
    ensures
        said(decimal(n)) == n,
        decimal(n).len() > 0,
        forall|i: int|
            0 <= i < decimal(n).len() ==> '0' <= #[trigger] decimal(n)[i] && decimal(n)[i] <= '9',
        decimal(n).len() > 1 ==> decimal(n)[0] != '0',
    decreases n,
{
    let last = digit(n % 10);
    assert(last as int == 48 + n % 10);
    if n < 10 {
        assert(seq![digit(n)].drop_last() =~= Seq::empty());
        assert(said(seq![digit(n)].drop_last()) == 0);
    } else {
        law_numbers_read_back(n / 10);
        assert(decimal(n).drop_last() =~= decimal(n / 10));
        assert(decimal(n)[0] == decimal(n / 10)[0]);
        if n / 10 < 10 {
            assert(decimal(n / 10) =~= seq![digit(n / 10)]);
            assert(digit(n / 10) as int == 48 + n / 10);
            assert('0' as int == 48);
        } else {
            law_numbers_read_back(n / 10 / 10);
            assert(decimal(n / 10).len() > 1);
        }
    }
}

/// Texts are joined in order, with the separator before each but the first.
pub proof fn law_joined_parts_stand_in_order(parts: Seq<Seq<char>>, sep: Seq<char>)
    ensures
        parts.len() == 0 ==> joined(parts, sep).len() == 0,
        parts.len() > 0 ==> joined(parts, sep) == parts[0] + parts.skip(1).map_values(
            |part: Seq<char>| sep + part,
        ).flatten(),
    decreases parts.len(),
{
    let f = |part: Seq<char>| sep + part;
    if parts.len() == 1 {
        assert(parts.skip(1).map_values(f) =~= Seq::empty());
        assert(parts[0] + Seq::<char>::empty() =~= parts[0]);
    } else if parts.len() > 1 {
        let rest = parts.drop_last();
        law_joined_parts_stand_in_order(rest, sep);
        let tail = parts.skip(1).map_values(f);
        let tail_rest = rest.skip(1).map_values(f);
        assert(tail.drop_last() =~= tail_rest);
        tail.lemma_flatten_and_flatten_alt_are_equivalent();
        tail_rest.lemma_flatten_and_flatten_alt_are_equivalent();
        assert(joined(parts, sep) =~= parts[0] + tail.flatten());
    }
}

/// Texts are ordered by the first character in which they differ, and a text comes before
/// every longer one that starts with it.
pub proof fn law_texts_are_ordered_by_their_first_difference(a: Seq<char>, b: Seq<char>, i: int)
    requires
        0 <= i <= a.len(),
        i < b.len(),
        a.take(i) == b.take(i),
    ensures
        i < a.len() && a[i] != b[i] ==> (comes_before(a, b) <==> a[i] < b[i]),
        i == a.len() ==> comes_before(a, b) && !comes_before(b, a),
    decreases i,
{
    if i > 0 {
        assert(a[0] == a.take(i)[0] && b[0] == b.take(i)[0]);
        let x = a.skip(1);
        let y = b.skip(1);
        assert(x.take(i - 1) =~= a.take(i).skip(1));
        assert(y.take(i - 1) =~= b.take(i).skip(1));
        law_texts_are_ordered_by_their_first_difference(x, y, i - 1);
        if i < a.len() {
            assert(x[i - 1] == a[i] && y[i - 1] == b[i]);
        }
    }
}

/// Among the characters of ASCII, the space, the tab, the line breaks and the two feeds
/// are white space, and nothing else is.
pub proof fn law_white_space_of_ascii(c: char)
    requires
        (c as u32) < 128,
    ensures
        is_space(c) <==> c == ' ' || c == '\t' || c == '\n' || c == '\r' || c == '\u{b}' || c
            == '\u{c}',
{
}

} // verus!
