//! Text that has to fit into a number of bytes.
use crate::text;
use vstd::prelude::*;
use vstd::string::StringExecFns;
use vstd::utf8::{encode_scalar, encode_utf8};

verus! {

/// How many bytes a text takes.
pub open spec fn utf8_len(s: Seq<char>) -> nat {
    encode_utf8(s).len()
}

/// The longest beginning of a text that fits into a number of bytes.
pub open spec fn fitting(s: Seq<char>, max: nat) -> Seq<char>
    decreases s.len(),
{
    if s.len() == 0 || utf8_len(s) <= max {
        s
    } else {
        fitting(s.drop_last(), max)
    }
}

/// A text cut off where it no longer fits, with a notice that it was; a text that
/// fits stays as it is.
pub open spec fn cut_off(s: Seq<char>, max: nat, notice: Seq<char>) -> Seq<char> {
    if utf8_len(s) <= max {
        s
    } else {
        fitting(s, max) + notice
    }
}

proof fn lemma_utf8_push(s: Seq<char>, c: char)
    ensures
        utf8_len(s.push(c)) == utf8_len(s) + encode_scalar(c as u32).len(),
        1 <= encode_scalar(c as u32).len() <= 4,
    decreases s.len(),
{
    reveal_with_fuel(encode_utf8, 2);
    if s.len() == 0 {
        assert(s.push(c).drop_first() =~= Seq::empty());
        assert(s.push(c)[0] == c);
    } else {
        lemma_utf8_push(s.drop_first(), c);
        assert(s.push(c).drop_first() =~= s.drop_first().push(c));
        assert(s.push(c)[0] == s[0]);
    }
}

proof fn lemma_utf8_take(s: Seq<char>, a: int, b: int)
    requires
        0 <= a <= b <= s.len(),
    ensures
        utf8_len(s.take(a)) <= utf8_len(s.take(b)),
        a < b ==> utf8_len(s.take(a)) < utf8_len(s.take(b)),
    decreases b - a,
{
    if a < b {
        lemma_utf8_take(s, a, b - 1);
        assert(s.take(b) =~= s.take(b - 1).push(s[b - 1]));
        lemma_utf8_push(s.take(b - 1), s[b - 1]);
    }
}

proof fn lemma_fitting(s: Seq<char>, max: nat, k: int)
    requires
        0 <= k <= s.len(),
        k > 0 ==> utf8_len(s.take(k)) <= max,
        k < s.len() ==> utf8_len(s.take(k + 1)) > max,
    ensures
        fitting(s, max) == s.take(k),
    decreases s.len(),
{
    assert(s.take(s.len() as int) =~= s);
    if k < s.len() {
        lemma_utf8_take(s, k + 1, s.len() as int);
        let t = s.drop_last();
        assert(t.take(k) =~= s.take(k));
        if k < t.len() {
            assert(t.take(k + 1) =~= s.take(k + 1));
        }
        lemma_fitting(t, max, k);
    }
}

fn char_width(c: char) -> (res: usize)
    ensures
        res == encode_scalar(c as u32).len(),
        1 <= res <= 4,
{
    let n: u32 = c as u32;
    if n <= 0x7f {
        1
    } else if n <= 0x7ff {
        2
    } else if n <= 0xffff {
        3
    } else {
        4
    }
}

/// Cuts a text off where it no longer fits into a number of bytes, between two
/// characters, and adds a notice.
pub fn cut(s: &str, max_bytes: usize, notice: &str) -> (res: String)
    ensures
        res@ == cut_off(s@, max_bytes as nat, notice@),
{
    let chars = text::chars_of(s);
    let mut used: usize = 0;
    let mut k: usize = 0;
    proof {
        assert(s@.take(0) =~= Seq::empty());
        assert(utf8_len(s@.take(0)) == 0);
    }
    while k < chars.len()
        invariant
            chars@ == s@,
            k <= chars@.len(),
            used == utf8_len(s@.take(k as int)),
            used <= max_bytes,
        decreases chars@.len() - k,
    {
        let width: usize = char_width(chars[k]);
        proof {
            assert(s@.take(k + 1) =~= s@.take(k as int).push(s@[k as int]));
            lemma_utf8_push(s@.take(k as int), s@[k as int]);
        }
        if width > max_bytes - used {
            proof {
                lemma_fitting(s@, max_bytes as nat, k as int);
                assert(s@.take(s@.len() as int) =~= s@);
                lemma_utf8_take(s@, k + 1, s@.len() as int);
                assert(s@.subrange(0, k as int) =~= s@.take(k as int));
            }
            let kept = s.substring_char(0, k);
            return text::cat2(kept, notice);
        }
        used += width;
        k += 1;
    }
    proof {
        assert(s@.take(s@.len() as int) =~= s@);
    }
    s.to_owned()
}

/// What is kept of a text is a beginning of it that fits.
pub proof fn law_cut_text_fits(s: Seq<char>, max: nat)
    ensures
        fitting(s, max).is_prefix_of(s),
        utf8_len(fitting(s, max)) <= max,
    decreases s.len(),
{
    if s.len() > 0 && utf8_len(s) > max {
        law_cut_text_fits(s.drop_last(), max);
        assert(s.drop_last().is_prefix_of(s));
    }
}

/// What is shown of a text is the text where it fits, and otherwise the longest beginning
/// of it that does, with the notice behind it.
pub proof fn law_cut_text_is_the_longest_that_fits(s: Seq<char>, max: nat) -> (k: int)
    ensures
        forall|notice: Seq<char>|
            utf8_len(s) <= max ==> #[trigger] cut_off(s, max, notice) == s,
        utf8_len(s) > max ==> 0 <= k < s.len() && utf8_len(s.take(k)) <= max && utf8_len(
            s.take(k + 1),
        ) > max,
        forall|notice: Seq<char>|
            utf8_len(s) > max ==> #[trigger] cut_off(s, max, notice) == s.take(k) + notice,
    decreases s.len(),
{
    if utf8_len(s) <= max || s.len() == 0 {
        assert(s.len() == 0 ==> s =~= Seq::empty());
        assert(s.len() == 0 ==> utf8_len(s) == 0);
        0
    } else {
        let t = s.drop_last();
        let n = t.len() as int;
        assert(s.take(n) =~= t);
        assert(s.take(n + 1) =~= s);
        if utf8_len(t) <= max {
            lemma_fitting(s, max, n);
            n
        } else {
            let k = law_cut_text_is_the_longest_that_fits(t, max);
            assert(t.take(k) =~= s.take(k));
            assert(t.take(k + 1) =~= s.take(k + 1));
            lemma_fitting(s, max, k);
            k
        }
    }
}

} // verus!
