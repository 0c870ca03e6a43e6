//! Lists of credentials as text: one credential per line.

use vstd::prelude::*;
use crate::classify::texts;
use crate::text::{chars_of, is_space, is_whitespace, string_of, trim_end, trim_start, trimmed};

verus! {

/// The lines of a text: what stands between one line feed and the next.
/// A text with `n` line feeds has `n + 1` lines, the last of them empty
/// where the text ends in a line feed.
pub open spec fn lines(s: Seq<char>) -> Seq<Seq<char>>
    decreases s.len(),
{
    if s.len() == 0 {
        seq![Seq::empty()]
    } else if s.last() == '\n' {
        lines(s.drop_last()).push(Seq::empty())
    } else {
        let before = lines(s.drop_last());
        before.drop_last().push(before.last().push(s.last()))
    }
}

/// A line that holds a credential: it is not empty and is no comment.
pub open spec fn is_key(line: Seq<char>) -> bool {
    line.len() > 0 && line[0] != '#'
}

/// The lines of a text without the white space at their ends.
pub open spec fn trimmed_lines(s: Seq<char>) -> Seq<Seq<char>> {
    lines(s).map_values(|line: Seq<char>| trimmed(line))
}

/// The credentials that a text lists: its lines, without the white space
/// at their ends, except those that are empty then or start with `#`.
pub open spec fn keys_of(contents: Seq<char>) -> Seq<Seq<char>> {
    trimmed_lines(contents).filter(|line: Seq<char>| is_key(line))
}

/// The text that lists the given credentials: each followed by a line
/// feed.
pub open spec fn rendered(keys: Seq<Seq<char>>) -> Seq<char>
    decreases keys.len(),
{
    if keys.len() == 0 {
        Seq::empty()
    } else {
        rendered(keys.drop_last()) + keys.last() + seq!['\n']
    }
}

/// A credential that a list can hold as it is: one that a line of a list
/// gives back unchanged.
pub open spec fn is_clean(key: Seq<char>) -> bool {
    &&& is_key(key)
    &&& !is_space(key[0])
    &&& !is_space(key.last())
    &&& !key.contains('\n')
}

proof fn lemma_lines_nonempty(s: Seq<char>)
    ensures
        lines(s).len() >= 1,
    decreases s.len(),
{
    if s.len() > 0 {
        lemma_lines_nonempty(s.drop_last());
    }
}

proof fn lemma_trim_start(s: Seq<char>, k: int)
    requires
        0 <= k <= s.len(),
        forall|i: int| 0 <= i < k ==> is_space(#[trigger] s[i]),
        k < s.len() ==> !is_space(s[k]),
    ensures
        trim_start(s) == s.skip(k),
    decreases k,
{
    if k > 0 {
        let rest = s.skip(1);
        assert forall|i: int| 0 <= i < k - 1 implies is_space(#[trigger] rest[i]) by {
            assert(rest[i] == s[i + 1]);
        }
        lemma_trim_start(rest, k - 1);
        assert(rest.skip(k - 1) =~= s.skip(k));
    } else {
        assert(s.skip(0) =~= s);
    }
}

proof fn lemma_trim_end(s: Seq<char>, k: int)
    requires
        0 <= k <= s.len(),
        forall|i: int| k <= i < s.len() ==> is_space(#[trigger] s[i]),
        k > 0 ==> !is_space(s[k - 1]),
    ensures
        trim_end(s) == s.take(k),
    decreases s.len() - k,
{
    if k < s.len() {
        let rest = s.drop_last();
        lemma_trim_end(rest, k);
        assert(rest.take(k) =~= s.take(k));
    } else {
        assert(s.take(k) =~= s);
    }
}

/// The line without the white space at its ends.
fn trim(line: &Vec<char>) -> (r: Vec<char>)
    ensures
        r@ == trimmed(line@),
{
    let mut start: usize = 0;
    while start < line.len() && is_whitespace(line[start])
        invariant
            start <= line.len(),
            forall|i: int| 0 <= i < start ==> is_space(#[trigger] line@[i]),
        decreases line.len() - start,
    {
        start += 1;
    }
    let mut end: usize = line.len();
    while end > start && is_whitespace(line[end - 1])
        invariant
            start <= end <= line.len(),
            forall|i: int| end <= i < line.len() ==> is_space(#[trigger] line@[i]),
        decreases end,
    {
        end -= 1;
    }
    let mut out: Vec<char> = Vec::new();
    let mut i: usize = start;
    while i < end
        invariant
            start <= i <= end <= line.len(),
            out@ == line@.subrange(start as int, i as int),
        decreases end - i,
    {
        out.push(line[i]);
        assert(line@.subrange(start as int, i + 1) =~= line@.subrange(start as int, i as int).push(
            line@[i as int],
        ));
        i += 1;
    }
    proof {
        lemma_trim_start(line@, start as int);
        let tail = line@.skip(start as int);
        assert forall|i: int| end - start <= i < tail.len() implies is_space(#[trigger] tail[i]) by {
            assert(tail[i] == line@[i + start]);
        }
        if end > start {
            assert(tail[end - start - 1] == line@[end - 1]);
        }
        lemma_trim_end(tail, end - start);
        assert(tail.take(end - start) =~= line@.subrange(start as int, end as int));
    }
    out
}

/// Adds the credential of one line, if it holds one.
fn keep_key(keys: &mut Vec<String>, line: &Vec<char>)
    ensures
        texts(final(keys)@) == if is_key(trimmed(line@)) {
            texts(old(keys)@).push(trimmed(line@))
        } else {
            texts(old(keys)@)
        },
{
    let key = trim(line);
    if key.len() > 0 && key[0] != '#' {
        keys.push(string_of(&key));
        assert(texts(keys@) =~= texts(old(keys)@).push(trimmed(line@)));
    }
}

/// Reads the credentials that a text lists.
pub fn parse_keys(contents: &str) -> (keys: Vec<String>)
    ensures
        texts(keys@) == keys_of(contents@),
{
    let chars = chars_of(contents);
    let mut keys: Vec<String> = Vec::new();
    let mut line: Vec<char> = Vec::new();
    let mut i: usize = 0;
    let ghost pick = |line: Seq<char>| is_key(line);
    proof {
        assert(chars@.take(0) =~= Seq::empty());
        assert(trimmed_lines(chars@.take(0)).drop_last() =~= Seq::empty());
        reveal(Seq::filter);
        assert(texts(keys@) =~= Seq::empty());
    }
    while i < chars.len()
        invariant
            i <= chars.len(),
            pick == |line: Seq<char>| is_key(line),
            line@ == lines(chars@.take(i as int)).last(),
            texts(keys@) == trimmed_lines(chars@.take(i as int)).drop_last().filter(pick),
        decreases chars.len() - i,
    {
        let c = chars[i];
        proof {
            let before = chars@.take(i as int);
            let after = chars@.take(i + 1);
            lemma_lines_nonempty(before);
            assert(after.drop_last() =~= before);
            if c == '\n' {
                assert(trimmed_lines(after).drop_last() =~= trimmed_lines(before));
                assert(trimmed_lines(before) =~= trimmed_lines(before).drop_last().push(
                    trimmed(line@),
                ));
                trimmed_lines(before).drop_last().lemma_filter_push(trimmed(line@), pick);
            } else {
                assert(trimmed_lines(after).drop_last() =~= trimmed_lines(before).drop_last());
            }
        }
        if c == '\n' {
            keep_key(&mut keys, &line);
            line = Vec::new();
        } else {
            line.push(c);
        }
        i += 1;
    }
    proof {
        assert(chars@.take(chars.len() as int) =~= chars@);
        lemma_lines_nonempty(chars@);
        assert(trimmed_lines(chars@) =~= trimmed_lines(chars@).drop_last().push(trimmed(line@)));
        trimmed_lines(chars@).drop_last().lemma_filter_push(trimmed(line@), pick);
    }
    keep_key(&mut keys, &line);
    keys
}

/// Writes a list of credentials as text: each followed by a line feed.
pub fn render_keys(keys: &Vec<String>) -> (contents: String)
    ensures
        contents@ == rendered(texts(keys@)),
{
    let mut out: Vec<char> = Vec::new();
    let mut i: usize = 0;
    assert(texts(keys@).take(0) =~= Seq::empty());
    while i < keys.len()
        invariant
            i <= keys.len(),
            out@ == rendered(texts(keys@).take(i as int)),
        decreases keys.len() - i,
    {
        let key = chars_of(keys[i].as_str());
        let ghost start = out@;
        let mut k: usize = 0;
        while k < key.len()
            invariant
                k <= key.len(),
                out@ == start + key@.take(k as int),
            decreases key.len() - k,
        {
            out.push(key[k]);
            assert(key@.take(k + 1) =~= key@.take(k as int).push(key@[k as int]));
            k += 1;
        }
        out.push('\n');
        proof {
            assert(key@.take(key.len() as int) =~= key@);
            assert(texts(keys@).take(i + 1).drop_last() =~= texts(keys@).take(i as int));
            assert(out@ =~= start + key@ + seq!['\n']);
        }
        i += 1;
    }
    assert(texts(keys@).take(keys.len() as int) =~= texts(keys@));
    string_of(&out)
}

/// A clean credential is its own line: it reads back as it is.
proof fn lemma_clean_is_trimmed(key: Seq<char>)
    requires
        is_clean(key),
    ensures
        trimmed(key) == key,
{
    lemma_trim_start(key, 0);
    assert(key.skip(0) =~= key);
    lemma_trim_end(key, key.len() as int);
    assert(key.take(key.len() as int) =~= key);
}

/// Text without a line feed, put after a text, lengthens its last line.
proof fn lemma_lines_append(s: Seq<char>, tail: Seq<char>)
    requires
        !tail.contains('\n'),
    ensures
        lines(s + tail) == lines(s).drop_last().push(lines(s).last() + tail),
    decreases tail.len(),
{
    lemma_lines_nonempty(s);
    if tail.len() == 0 {
        assert(s + tail =~= s);
        assert(lines(s).last() + tail =~= lines(s).last());
        assert(lines(s) =~= lines(s).drop_last().push(lines(s).last()));
    } else {
        let init = tail.drop_last();
        assert(!init.contains('\n')) by {
            if init.contains('\n') {
                let k = choose|k: int| 0 <= k < init.len() && init[k] == '\n';
                assert(tail[k] == '\n');
            }
        }
        assert(tail.last() != '\n') by {
            assert(tail[tail.len() - 1] == tail.last());
        }
        lemma_lines_append(s, init);
        assert((s + tail).drop_last() =~= s + init);
        assert((lines(s).last() + init).push(tail.last()) =~= lines(s).last() + tail);
        assert(lines(s + init).drop_last() =~= lines(s).drop_last());
    }
}

proof fn lemma_rendered_lines(keys: Seq<Seq<char>>)
    requires
        forall|i: int| 0 <= i < keys.len() ==> is_clean(#[trigger] keys[i]),
    ensures
        lines(rendered(keys)) == keys.push(Seq::empty()),
    decreases keys.len(),
{
    if keys.len() == 0 {
        assert(lines(rendered(keys)) =~= keys.push(Seq::empty()));
    } else {
        let init = keys.drop_last();
        let last = keys.last();
        assert forall|i: int| 0 <= i < init.len() implies is_clean(#[trigger] init[i]) by {
            assert(init[i] == keys[i]);
        }
        lemma_rendered_lines(init);
        assert(is_clean(keys[keys.len() - 1]));
        lemma_lines_append(rendered(init), last);
        let body = rendered(init) + last;
        assert(lines(body) =~= init.push(last)) by {
            assert(Seq::<char>::empty() + last =~= last);
        }
        assert(rendered(keys).drop_last() =~= body);
        assert(init.push(last) =~= keys);
    }
}

/// Credentials written as a list and read back are the same credentials,
/// in the same order.
pub proof fn law_written_keys_read_back(keys: Seq<Seq<char>>)
    requires
        forall|i: int| 0 <= i < keys.len() ==> is_clean(#[trigger] keys[i]),
    ensures
        keys_of(rendered(keys)) == keys,
{
    lemma_rendered_lines(keys);
    let all = keys.push(Seq::empty());
    let pick = |line: Seq<char>| is_key(line);
    assert(trimmed_lines(rendered(keys)) =~= all) by {
        assert forall|i: int| 0 <= i < all.len() implies trimmed(#[trigger] all[i]) == all[i] by {
            if i < keys.len() {
                assert(is_clean(keys[i]));
                lemma_clean_is_trimmed(keys[i]);
            } else {
                assert(all[i] =~= Seq::empty());
            }
        }
    }
    keys.lemma_filter_push(Seq::empty(), pick);
    lemma_all_kept(keys);
}

proof fn lemma_all_kept(keys: Seq<Seq<char>>)
    requires
        forall|i: int| 0 <= i < keys.len() ==> is_clean(#[trigger] keys[i]),
    ensures
        keys.filter(|line: Seq<char>| is_key(line)) == keys,
    decreases keys.len(),
{
    let pick = |line: Seq<char>| is_key(line);
    if keys.len() == 0 {
        reveal(Seq::filter);
    } else {
        let init = keys.drop_last();
        assert forall|i: int| 0 <= i < init.len() implies is_clean(#[trigger] init[i]) by {
            assert(init[i] == keys[i]);
        }
        lemma_all_kept(init);
        assert(is_clean(keys[keys.len() - 1]));
        init.lemma_filter_push(keys.last(), pick);
        assert(init.push(keys.last()) =~= keys);
    }
}

proof fn lemma_lines_hold_no_feed(s: Seq<char>, i: int)
    requires
        0 <= i < lines(s).len(),
    ensures
        !lines(s)[i].contains('\n'),
    decreases s.len(),
{
    if s.len() > 0 {
        let before = lines(s.drop_last());
        lemma_lines_nonempty(s.drop_last());
        if s.last() == '\n' {
            if i < before.len() {
                lemma_lines_hold_no_feed(s.drop_last(), i);
            }
        } else if i < before.len() - 1 {
            lemma_lines_hold_no_feed(s.drop_last(), i);
        } else {
            lemma_lines_hold_no_feed(s.drop_last(), before.len() - 1);
            let line = before.last().push(s.last());
            if line.contains('\n') {
                let k = choose|k: int| 0 <= k < line.len() && line[k] == '\n';
                if k < before.last().len() {
                    assert(before.last()[k] == '\n');
                }
            }
        }
    }
}

/// Where the white space at the start of a text ends.
proof fn lemma_trim_start_cut(s: Seq<char>) -> (k: int)
    ensures
        0 <= k <= s.len(),
        trim_start(s) == s.skip(k),
        k < s.len() ==> !is_space(s[k]),
    decreases s.len(),
{
    if s.len() > 0 && is_space(s[0]) {
        let k = lemma_trim_start_cut(s.skip(1));
        assert(s.skip(1).skip(k) =~= s.skip(k + 1));
        k + 1
    } else {
        assert(s.skip(0) =~= s);
        0
    }
}

/// Where the white space at the end of a text starts.
proof fn lemma_trim_end_cut(s: Seq<char>) -> (k: int)
    ensures
        0 <= k <= s.len(),
        trim_end(s) == s.take(k),
        k > 0 ==> !is_space(s[k - 1]),
    decreases s.len(),
{
    if s.len() > 0 && is_space(s.last()) {
        let k = lemma_trim_end_cut(s.drop_last());
        assert(s.drop_last().take(k) =~= s.take(k));
        k
    } else {
        assert(s.take(s.len() as int) =~= s);
        s.len() as int
    }
}

/// A line without the white space at its ends, if anything is left of it,
/// starts and ends with something other than white space, and holds no
/// line feed that the line did not hold.
proof fn lemma_trimmed_is_tight(line: Seq<char>)
    ensures
        trimmed(line).len() > 0 ==> !is_space(trimmed(line)[0]) && !is_space(trimmed(line).last()),
        !line.contains('\n') ==> !trimmed(line).contains('\n'),
{
    let from = lemma_trim_start_cut(line);
    let rest = line.skip(from);
    let to = lemma_trim_end_cut(rest);
    let kept = trimmed(line);
    assert(kept == rest.take(to));
    if kept.len() > 0 {
        assert(kept[0] == line[from]);
        assert(kept.last() == rest[to - 1]);
    }
    if kept.contains('\n') {
        let k = choose|k: int| 0 <= k < kept.len() && kept[k] == '\n';
        assert(line[from + k] == '\n');
    }
}

/// Every credential read from a text is clean: it is not empty, is no
/// comment, has no white space at its ends and no line feed in it. So it
/// reads back as it is when written to a list.
pub proof fn law_read_keys_are_clean(contents: Seq<char>, i: int)
    requires
        0 <= i < keys_of(contents).len(),
    ensures
        is_clean(keys_of(contents)[i]),
{
    let pick = |line: Seq<char>| is_key(line);
    let all = trimmed_lines(contents);
    let key = keys_of(contents)[i];
    all.lemma_filter_pred(pick, i);
    assert(all.filter(pick).contains(key));
    all.lemma_filter_contains_rev(pick, key);
    let j = choose|j: int| 0 <= j < all.len() && all[j] == key;
    lemma_lines_hold_no_feed(contents, j);
    lemma_trimmed_is_tight(lines(contents)[j]);
}

} // verus!
