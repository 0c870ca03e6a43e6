//! Texts as sequences of characters: white space, words, and finding one
//! text in another.

use vstd::prelude::*;

verus! {

/// Appends one character to a string.
///
/// Wraps `String::push`, which std documents as appending the given `char`
/// to the end of the string.
#[verifier::external_body]
pub(crate) fn push_char(s: &mut String, c: char)
    ensures
        final(s)@ == old(s)@.push(c),
{
    s.push(c)
}

/// The characters of a string, in order.
pub fn chars_of(s: &str) -> (v: Vec<char>)
    ensures
        v@ == s@,
{
    let mut v: Vec<char> = Vec::new();
    for c in it: s.chars()
        invariant
            it.seq() == s@,
            v@ == s@.take(it.index() as int),
    {
        v.push(c);
        assert(s@.take(it.index() + 1) =~= s@.take(it.index() as int).push(c));
    }
    assert(s@.take(s@.len() as int) =~= s@);
    v
}

/// The string made of the given characters, in order.
pub fn string_of(v: &Vec<char>) -> (s: String)
    ensures
        s@ == v@,
{
    let mut s = String::new();
    let mut i: usize = 0;
    while i < v.len()
        invariant
            i <= v.len(),
            s@ == v@.take(i as int),
        decreases v.len() - i,
    {
        push_char(&mut s, v[i]);
        assert(v@.take(i + 1) =~= v@.take(i as int).push(v@[i as int]));
        i += 1;
    }
    assert(v@.take(v@.len() as int) =~= v@);
    s
}

/// Whether two texts are the same.
pub fn same_text(a: &str, b: &str) -> (r: bool)
    ensures
        r == (a@ == b@),
{
    let left = chars_of(a);
    let right = chars_of(b);
    if left.len() != right.len() {
        return false;
    }
    let mut i: usize = 0;
    while i < left.len()
        invariant
            i <= left.len(),
            left.len() == right.len(),
            left@ == a@,
            right@ == b@,
            left@.take(i as int) == right@.take(i as int),
        decreases left.len() - i,
    {
        if left[i] != right[i] {
            return false;
        }
        assert(left@.take(i + 1) =~= left@.take(i as int).push(left@[i as int]));
        assert(right@.take(i + 1) =~= right@.take(i as int).push(right@[i as int]));
        i += 1;
    }
    assert(left@.take(left.len() as int) =~= left@);
    assert(right@.take(right.len() as int) =~= right@);
    true
}

/// The characters that count as white space: those that Unicode gives the
/// property `White_Space`.
pub open spec fn is_space(c: char) -> bool {
    ||| '\u{9}' <= c <= '\u{d}'
    ||| c == ' '
    ||| c == '\u{85}'
    ||| c == '\u{a0}'
    ||| c == '\u{1680}'
    ||| '\u{2000}' <= c <= '\u{200a}'
    ||| c == '\u{2028}'
    ||| c == '\u{2029}'
    ||| c == '\u{202f}'
    ||| c == '\u{205f}'
    ||| c == '\u{3000}'
}

/// Whether a character counts as white space.
pub fn is_whitespace(c: char) -> (r: bool)
    ensures
        r == is_space(c),
{
    ('\u{9}' <= c && c <= '\u{d}') || c == ' ' || c == '\u{85}' || c == '\u{a0}' || c
        == '\u{1680}' || ('\u{2000}' <= c && c <= '\u{200a}') || c == '\u{2028}' || c
        == '\u{2029}' || c == '\u{202f}' || c == '\u{205f}' || c == '\u{3000}'
}

/// The words of a text, in order, with one space between neighbours: white
/// space at either end is gone, and every other run of white space has
/// become a single space.
pub open spec fn collapsed(s: Seq<char>) -> Seq<char>
    decreases s.len(),
{
    if s.len() == 0 {
        s
    } else if is_space(s.last()) {
        collapsed(s.drop_last())
    } else if s.len() >= 2 && is_space(s[s.len() - 2]) && collapsed(s.drop_last()).len() > 0 {
        collapsed(s.drop_last()).push(' ').push(s.last())
    } else {
        collapsed(s.drop_last()).push(s.last())
    }
}

/// Puts single spaces between the words of a text.
pub fn collapse_whitespace(text: &str) -> (r: String)
    ensures
        r@ == collapsed(text@),
{
    let chars = chars_of(text);
    let mut out = String::new();
    let mut after_space = false;
    let mut started = false;
    let mut i: usize = 0;
    while i < chars.len()
        invariant
            i <= chars.len(),
            chars@ == text@,
            out@ == collapsed(chars@.take(i as int)),
            after_space == (i > 0 && is_space(chars@[i - 1])),
            started == (out@.len() > 0),
        decreases chars.len() - i,
    {
        let c = chars[i];
        proof {
            assert(chars@.take(i + 1).drop_last() =~= chars@.take(i as int));
        }
        if is_whitespace(c) {
            after_space = true;
        } else {
            if after_space && started {
                push_char(&mut out, ' ');
            }
            push_char(&mut out, c);
            after_space = false;
            started = true;
        }
        i += 1;
    }
    assert(chars@.take(chars.len() as int) =~= chars@);
    out
}

/// The text without the white space at its start.
pub open spec fn trim_start(s: Seq<char>) -> Seq<char>
    decreases s.len(),
{
    if s.len() > 0 && is_space(s[0]) {
        trim_start(s.skip(1))
    } else {
        s
    }
}

/// The text without the white space at its end.
pub open spec fn trim_end(s: Seq<char>) -> Seq<char>
    decreases s.len(),
{
    if s.len() > 0 && is_space(s.last()) {
        trim_end(s.drop_last())
    } else {
        s
    }
}

/// The text without the white space at either end.
pub open spec fn trimmed(s: Seq<char>) -> Seq<char> {
    trim_end(trim_start(s))
}

/// `pattern` stands in `text` at position `at`.
pub open spec fn occurs_at(text: Seq<char>, pattern: Seq<char>, at: int) -> bool {
    &&& 0 <= at
    &&& at + pattern.len() <= text.len()
    &&& text.subrange(at, at + pattern.len()) == pattern
}

/// `pattern` stands somewhere in `text`. The empty pattern stands in every
/// text.
pub open spec fn occurs_in(text: Seq<char>, pattern: Seq<char>) -> bool {
    exists|at: int| occurs_at(text, pattern, at)
}

/// Whether `pattern` stands in `text` at position `at`.
fn matches_at(text: &Vec<char>, pattern: &Vec<char>, at: usize) -> (r: bool)
    requires
        at + pattern.len() <= text.len(),
    ensures
        r == occurs_at(text@, pattern@, at as int),
{
    let mut k: usize = 0;
    while k < pattern.len()
        invariant
            k <= pattern.len(),
            at + pattern.len() <= text.len(),
            text@.subrange(at as int, at + k) == pattern@.take(k as int),
        decreases pattern.len() - k,
    {
        if text[at + k] != pattern[k] {
            assert(text@.subrange(at as int, at + pattern.len())[k as int] != pattern@[k as int]);
            return false;
        }
        assert(text@.subrange(at as int, at + k + 1) =~= text@.subrange(at as int, at + k).push(
            text@[at + k],
        ));
        assert(pattern@.take(k + 1) =~= pattern@.take(k as int).push(pattern@[k as int]));
        k += 1;
    }
    assert(pattern@.take(pattern.len() as int) =~= pattern@);
    true
}

/// Whether `pattern` stands somewhere in `text`.
pub fn contains(text: &str, pattern: &str) -> (r: bool)
    ensures
        r == occurs_in(text@, pattern@),
{
    let hay = chars_of(text);
    let needle = chars_of(pattern);
    if needle.len() > hay.len() {
        return false;
    }
    let last = hay.len() - needle.len();
    let mut at: usize = 0;
    loop
        invariant
            hay@ == text@,
            needle@ == pattern@,
            at <= last,
            last == hay.len() - needle.len(),
            forall|j: int| 0 <= j < at ==> !occurs_at(hay@, needle@, j),
        decreases last - at,
    {
        if matches_at(&hay, &needle, at) {
            return true;
        }
        if at == last {
            return false;
        }
        at += 1;
    }
}

/// No character of the text is white space.
pub open spec fn is_word(s: Seq<char>) -> bool {
    forall|i: int| 0 <= i < s.len() ==> !is_space(#[trigger] s[i])
}

/// How many characters stand at the end of a text after its last white
/// space.
pub open spec fn last_word_len(s: Seq<char>) -> nat
    decreases s.len(),
{
    if s.len() == 0 || is_space(s.last()) {
        0
    } else {
        1 + last_word_len(s.drop_last())
    }
}

proof fn lemma_last_word(s: Seq<char>)
    ensures
        last_word_len(s) <= s.len(),
        forall|i: int| s.len() - last_word_len(s) <= i < s.len() ==> !is_space(#[trigger] s[i]),
        last_word_len(s) < s.len() ==> is_space(s[s.len() - last_word_len(s) - 1]),
    decreases s.len(),
{
    if s.len() > 0 && !is_space(s.last()) {
        lemma_last_word(s.drop_last());
        assert forall|i: int| s.len() - last_word_len(s) <= i < s.len() implies !is_space(
            #[trigger] s[i],
        ) by {
            if i < s.len() - 1 {
                assert(s.drop_last()[i] == s[i]);
            }
        }
        if last_word_len(s) < s.len() {
            assert(s.drop_last()[s.len() - last_word_len(s) - 1] == s[s.len() - last_word_len(s)
                - 1]);
        }
    }
}

/// A text with single spaces between its words ends with the last word of
/// the text it was made from, and a space stands before that word unless
/// it is the only one.
proof fn lemma_collapsed_ends_with_last_word(s: Seq<char>)
    ensures
        collapsed(s).len() >= last_word_len(s),
        last_word_len(s) > 0 ==> collapsed(s).skip(collapsed(s).len() - last_word_len(s))
            == s.skip(s.len() - last_word_len(s)),
        last_word_len(s) > 0 && collapsed(s).len() > last_word_len(s) ==> collapsed(s)[collapsed(
            s,
        ).len() - last_word_len(s) - 1] == ' ',
    decreases s.len(),
{
    if s.len() > 0 && !is_space(s.last()) {
        let init = s.drop_last();
        let c = s.last();
        let whole = collapsed(s);
        let earlier = collapsed(init);
        let r = last_word_len(s) as int;
        lemma_collapsed_ends_with_last_word(init);
        lemma_last_word(init);
        if init.len() > 0 && !is_space(init.last()) {
            assert(s[s.len() - 2] == init.last());
            assert(whole == earlier.push(c));
            assert(whole.skip(whole.len() - r) =~= earlier.skip(earlier.len() - (r - 1)).push(c));
            assert(s.skip(s.len() - r) =~= init.skip(init.len() - (r - 1)).push(c));
            if whole.len() > r {
                assert(whole[whole.len() - r - 1] == earlier[earlier.len() - (r - 1) - 1]);
            }
        } else {
            assert(r == 1);
            assert(whole.skip(whole.len() - 1) =~= seq![c]);
            assert(s.skip(s.len() - 1) =~= seq![c]);
            if init.len() > 0 {
                assert(s[s.len() - 2] == init.last());
            }
        }
    }
}

/// What a text becomes with single spaces between its words starts with
/// what any start of the text becomes.
proof fn lemma_collapsed_grows(s: Seq<char>, j: int)
    requires
        0 <= j <= s.len(),
    ensures
        collapsed(s.take(j)).len() <= collapsed(s).len(),
        collapsed(s).take(collapsed(s.take(j)).len() as int) == collapsed(s.take(j)),
    decreases s.len() - j,
{
    if j == s.len() {
        assert(s.take(j) =~= s);
        assert(collapsed(s).take(collapsed(s).len() as int) =~= collapsed(s));
    } else {
        lemma_collapsed_grows(s, j + 1);
        let shorter = collapsed(s.take(j));
        let longer = collapsed(s.take(j + 1));
        assert(s.take(j + 1).drop_last() =~= s.take(j));
        assert(longer.take(shorter.len() as int) =~= shorter);
        assert(collapsed(s).take(shorter.len() as int) =~= collapsed(s).take(
            longer.len() as int,
        ).take(shorter.len() as int));
    }
}

proof fn lemma_word_stays(s: Seq<char>, word: Seq<char>, at: int)
    requires
        is_word(word),
        word.len() > 0,
        occurs_at(s, word, at),
    ensures
        occurs_in(collapsed(s), word),
{
    let start = s.take(at + word.len());
    let n = word.len() as int;
    lemma_last_word(start);
    assert(last_word_len(start) >= n) by {
        if last_word_len(start) < n {
            let k = start.len() - last_word_len(start) - 1;
            assert(start[k] == s.subrange(at, at + n)[k - at]);
            assert(!is_space(word[k - at]));
        }
    }
    lemma_collapsed_ends_with_last_word(start);
    lemma_collapsed_grows(s, at + n);
    let short = collapsed(start);
    let r = last_word_len(start) as int;
    let place = short.len() - n;
    assert(collapsed(s).subrange(place, place + n) =~= word) by {
        assert forall|i: int| 0 <= i < n implies collapsed(s).subrange(place, place + n)[i]
            == word[i] by {
            assert(collapsed(s).take(short.len() as int)[place + i] == collapsed(s)[place + i]);
            assert(short.skip(short.len() - r)[r - n + i] == short[place + i]);
            assert(start.skip(start.len() - r)[r - n + i] == start[at + i]);
            assert(s.subrange(at, at + n)[i] == s[at + i]);
        }
    }
    assert(occurs_at(collapsed(s), word, place));
}

proof fn lemma_word_came_from_the_text(s: Seq<char>, word: Seq<char>, at: int)
    requires
        is_word(word),
        word.len() > 0,
        occurs_at(collapsed(s), word, at),
    ensures
        occurs_in(s, word),
    decreases s.len(),
{
    let n = word.len() as int;
    let whole = collapsed(s);
    if s.len() > 0 {
        let init = s.drop_last();
        let earlier = collapsed(init);
        if at + n <= earlier.len() && earlier.len() <= whole.len() && whole.take(
            earlier.len() as int,
        ) == earlier {
            assert(earlier.subrange(at, at + n) =~= whole.subrange(at, at + n));
            lemma_word_came_from_the_text(init, word, at);
            let place = choose|place: int| occurs_at(init, word, place);
            assert(s.subrange(place, place + n) =~= init.subrange(place, place + n));
            assert(occurs_at(s, word, place));
        } else {
            lemma_collapsed_grows(s, s.len() - 1);
            assert(s.take(s.len() - 1) =~= init);
            assert(!is_space(s.last()));
            assert(at + n == whole.len()) by {
                if at + n < whole.len() {
                    assert(whole == earlier.push(' ').push(s.last()));
                    assert(whole.subrange(at, at + n)[n - 1] == whole[at + n - 1]);
                    assert(!is_space(word[n - 1]));
                }
            }
            lemma_collapsed_ends_with_last_word(s);
            lemma_last_word(s);
            let r = last_word_len(s) as int;
            assert(n <= r) by {
                if n > r {
                    let k = whole.len() - r - 1;
                    assert(whole.subrange(at, at + n)[k - at] == whole[k]);
                    assert(!is_space(word[k - at]));
                }
            }
            let place = s.len() - n;
            assert(s.subrange(place, place + n) =~= word) by {
                assert forall|i: int| 0 <= i < n implies s.subrange(place, place + n)[i]
                    == word[i] by {
                    assert(whole.subrange(at, at + n)[i] == whole[at + i]);
                    assert(whole.skip(whole.len() - r)[r - n + i] == whole[at + i]);
                    assert(s.skip(s.len() - r)[r - n + i] == s[place + i]);
                }
            }
            assert(occurs_at(s, word, place));
        }
    }
}

/// Putting single spaces between the words of a text neither hides a word
/// nor makes one: a pattern without white space stands in the text
/// afterwards if and only if it stood there before.
pub proof fn law_collapsing_keeps_words(s: Seq<char>, word: Seq<char>)
    requires
        is_word(word),
    ensures
        occurs_in(collapsed(s), word) == occurs_in(s, word),
{
    if word.len() == 0 {
        assert(s.subrange(0, 0) =~= word);
        assert(occurs_at(s, word, 0));
        assert(collapsed(s).subrange(0, 0) =~= word);
        assert(occurs_at(collapsed(s), word, 0));
    } else {
        if occurs_in(s, word) {
            let at = choose|at: int| occurs_at(s, word, at);
            lemma_word_stays(s, word, at);
        }
        if occurs_in(collapsed(s), word) {
            let at = choose|at: int| occurs_at(collapsed(s), word, at);
            lemma_word_came_from_the_text(s, word, at);
        }
    }
}

} // verus!
