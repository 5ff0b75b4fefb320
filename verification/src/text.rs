//! Reading the dataset: one document per non-empty line of text, with surrounding whitespace
//! removed.

use vstd::prelude::*;

verus! {

/// Whether `c` has the Unicode `White_Space` property, which is what `char::is_whitespace`
/// tests: U+0009 to U+000D, U+0020, U+0085, U+00A0, U+1680, U+2000 to U+200A, U+2028, U+2029,
/// U+202F, U+205F and U+3000.
pub open spec fn is_white_space(c: char) -> bool {
    let u = c as u32;
    ||| 0x9 <= u <= 0xD
    ||| u == 0x20
    ||| u == 0x85
    ||| u == 0xA0
    ||| u == 0x1680
    ||| 0x2000 <= u <= 0x200A
    ||| u == 0x2028
    ||| u == 0x2029
    ||| u == 0x202F
    ||| u == 0x205F
    ||| u == 0x3000
}

/// Whether `c` is whitespace (the Unicode `White_Space` property).
pub fn char_is_whitespace(c: char) -> (b: bool)
    ensures
        b == is_white_space(c),
{
    match c {
        '\u{9}'..='\u{D}' | ' ' | '\u{85}' | '\u{A0}' | '\u{1680}' | '\u{2000}'..='\u{200A}'
        | '\u{2028}' | '\u{2029}' | '\u{202F}' | '\u{205F}' | '\u{3000}' => true,
        _ => false,
    }
}

/// Calls `String::push`, which its documentation says appends the character to the end of the
/// string; that is what the contract claims.
#[verifier::external_body]
pub(crate) fn string_push(s: &mut String, c: char)
    ensures
        final(s)@ == old(s)@.push(c),
{
    s.push(c)
}

/// `s` without its leading whitespace.
pub open spec fn trim_start(s: Seq<char>) -> Seq<char>
    decreases s.len(),
{
    if s.len() > 0 && is_white_space(s[0]) {
        trim_start(s.drop_first())
    } else {
        s
    }
}

/// `s` without its trailing whitespace.
pub open spec fn trim_end(s: Seq<char>) -> Seq<char>
    decreases s.len(),
{
    if s.len() > 0 && is_white_space(s.last()) {
        trim_end(s.drop_last())
    } else {
        s
    }
}

/// `s` without leading and trailing whitespace (what `str::trim` gives).
pub open spec fn trimmed(s: Seq<char>) -> Seq<char> {
    trim_end(trim_start(s))
}

/// Leading whitespace is a prefix of whitespace characters that stops at the first character that
/// is not whitespace (or at the end).
proof fn lemma_trim_start_is_suffix(s: Seq<char>) -> (i: int)
    ensures
        0 <= i <= s.len(),
        trim_start(s) == s.skip(i),
        forall|k: int| 0 <= k < i ==> is_white_space(#[trigger] s[k]),
        i < s.len() ==> !is_white_space(s[i]),
    decreases s.len(),
{
    if s.len() > 0 && is_white_space(s[0]) {
        let rest = s.drop_first();
        let j = lemma_trim_start_is_suffix(rest);
        assert(rest.skip(j) =~= s.skip(j + 1));
        assert forall|k: int| 0 <= k < j + 1 implies is_white_space(#[trigger] s[k]) by {
            if k > 0 {
                assert(s[k] == rest[k - 1]);
            }
        }
        j + 1
    } else {
        assert(s.skip(0) =~= s);
        0
    }
}

/// Trailing whitespace is a suffix of whitespace characters that stops at the last character that
/// is not whitespace (or at the start).
proof fn lemma_trim_end_is_prefix(s: Seq<char>) -> (j: int)
    ensures
        0 <= j <= s.len(),
        trim_end(s) == s.take(j),
        forall|k: int| j <= k < s.len() ==> is_white_space(#[trigger] s[k]),
        j > 0 ==> !is_white_space(s[j - 1]),
    decreases s.len(),
{
    if s.len() > 0 && is_white_space(s.last()) {
        let rest = s.drop_last();
        let j = lemma_trim_end_is_prefix(rest);
        assert(rest.take(j) =~= s.take(j));
        assert forall|k: int| j <= k < s.len() implies is_white_space(#[trigger] s[k]) by {
            if k < s.len() - 1 {
                assert(s[k] == rest[k]);
            }
        }
        j
    } else {
        assert(s.take(s.len() as int) =~= s);
        s.len() as int
    }
}

/// Trimming keeps one contiguous stretch `s[r.0..r.1]` of the text, whatever its length: every
/// character outside it is whitespace, and when it is not empty it begins and ends with a
/// character that is not whitespace. So trimming drops exactly the leading and trailing
/// whitespace and never a character that is not whitespace.
pub proof fn lemma_trimmed_is_inner_part(s: Seq<char>) -> (r: (int, int))
    ensures
        0 <= r.0 <= r.1 <= s.len(),
        trimmed(s) == s.subrange(r.0, r.1),
        forall|k: int| 0 <= k < r.0 ==> is_white_space(#[trigger] s[k]),
        forall|k: int| r.1 <= k < s.len() ==> is_white_space(#[trigger] s[k]),
        r.0 < r.1 ==> !is_white_space(s[r.0]) && !is_white_space(s[r.1 - 1]),
        forall|k: int| 0 <= k < s.len() && !is_white_space(#[trigger] s[k]) ==> r.0 <= k < r.1,
{
    let i = lemma_trim_start_is_suffix(s);
    let t = s.skip(i);
    let j = lemma_trim_end_is_prefix(t);
    assert(t.take(j) =~= s.subrange(i, i + j));
    assert forall|k: int| i + j <= k < s.len() implies is_white_space(#[trigger] s[k]) by {
        assert(s[k] == t[k - i]);
    }
    if j > 0 {
        assert(s[i + j - 1] == t[j - 1]);
    }
    (i, i + j)
}

/// Splitting `s` at `'\n'`: the lines ended by a `'\n'` (without it), and the unfinished rest.
pub open spec fn split_lines(s: Seq<char>) -> (Seq<Seq<char>>, Seq<char>)
    decreases s.len(),
{
    if s.len() == 0 {
        (Seq::empty(), Seq::empty())
    } else {
        let (done, cur) = split_lines(s.drop_last());
        if s.last() == '\n' {
            (done.push(cur), Seq::empty())
        } else {
            (done, cur.push(s.last()))
        }
    }
}

/// Splitting at `'\n'` loses nothing and cuts only at `'\n'`: the text is the ended lines, each
/// followed by its `'\n'`, then the unfinished rest, and no line and not the rest holds a `'\n'`.
pub proof fn lemma_split_lines_rejoins(s: Seq<char>)
    ensures
        s == split_lines(s).0.map_values(|l: Seq<char>| l.push('\n')).flatten() + split_lines(s).1,
        forall|i: int|
            0 <= i < split_lines(s).0.len() ==> !(#[trigger] split_lines(s).0[i]).contains('\n'),
        !split_lines(s).1.contains('\n'),
    decreases s.len(),
{
    if s.len() > 0 {
        let prev = s.drop_last();
        lemma_split_lines_rejoins(prev);
        let (done, cur) = split_lines(prev);
        let joined = done.map_values(|l: Seq<char>| l.push('\n'));
        assert(s =~= prev.push(s.last()));
        assert(prev == joined.flatten() + cur);
        assert(joined.flatten() + cur.push(s.last()) =~= (joined.flatten() + cur).push(s.last()));
        if s.last() == '\n' {
            assert(done.push(cur).map_values(|l: Seq<char>| l.push('\n')) =~= joined.push(
                cur.push('\n'),
            ));
            joined.lemma_flatten_push(cur.push('\n'));
            assert(s =~= joined.flatten() + cur.push('\n') + Seq::<char>::empty());
        } else {
            assert(s =~= joined.flatten() + cur.push(s.last()));
            assert forall|k: int| 0 <= k < cur.push(s.last()).len() implies cur.push(s.last())[k]
                != '\n' by {
                if k < cur.len() {
                    assert(cur[k] == cur.push(s.last())[k]);
                }
            }
        }
    } else {
        assert(s =~= Seq::<Seq<char>>::empty().flatten() + Seq::<char>::empty());
    }
}

/// A line ended by `"\r\n"` loses its `'\r'` as well.
pub open spec fn strip_cr(line: Seq<char>) -> Seq<char> {
    if line.len() > 0 && line.last() == '\r' {
        line.drop_last()
    } else {
        line
    }
}

/// The lines of `s` as `str::lines` gives them: split at `'\n'` or `"\r\n"`, where a final line
/// ending is optional (so an empty rest after the last `'\n'` is no line).
pub open spec fn text_lines(s: Seq<char>) -> Seq<Seq<char>> {
    let (done, cur) = split_lines(s);
    let ended = done.map_values(|l: Seq<char>| strip_cr(l));
    if cur.len() > 0 {
        ended.push(cur)
    } else {
        ended
    }
}

/// The trimmed lines that are not empty, in order.
pub open spec fn kept_lines(lines: Seq<Seq<char>>) -> Seq<Seq<char>>
    decreases lines.len(),
{
    if lines.len() == 0 {
        Seq::empty()
    } else {
        let rest = kept_lines(lines.drop_last());
        let t = trimmed(lines.last());
        if t.len() > 0 {
            rest.push(t)
        } else {
            rest
        }
    }
}

/// The documents of a dataset text: its lines, trimmed, without the empty ones.
pub open spec fn parse_docs(text: Seq<char>) -> Seq<Seq<char>> {
    kept_lines(text_lines(text))
}

/// Keeping the non-empty trimmed lines is filtering the trimmed lines by non-emptiness, and keeps
/// as many lines as there are lines whose trimmed content is not empty.
proof fn lemma_kept_lines_filter(lines: Seq<Seq<char>>)
    ensures
        kept_lines(lines) == lines.map_values(|l: Seq<char>| trimmed(l)).filter(
            |t: Seq<char>| t.len() > 0,
        ),
        kept_lines(lines).len() == lines.filter(|l: Seq<char>| trimmed(l).len() > 0).len(),
    decreases lines.len(),
{
    reveal(Seq::filter);
    if lines.len() > 0 {
        lemma_kept_lines_filter(lines.drop_last());
        let m = lines.map_values(|l: Seq<char>| trimmed(l));
        assert(m.drop_last() =~= lines.drop_last().map_values(|l: Seq<char>| trimmed(l)));
    }
}

/// Every line of the text whose trimmed content is not empty yields one document, in order, and
/// no other line does: the documents are the trimmed lines with the empty ones filtered out, so
/// there are exactly as many documents as such lines, however many there are.
pub proof fn lemma_docs_are_nonblank_trimmed_lines(text: Seq<char>)
    ensures
        parse_docs(text) == text_lines(text).map_values(|l: Seq<char>| trimmed(l)).filter(
            |t: Seq<char>| t.len() > 0,
        ),
        parse_docs(text).len() == text_lines(text).filter(|l: Seq<char>| trimmed(l).len() > 0).len(),
        forall|i: int|
            0 <= i < text_lines(text).len() && trimmed(#[trigger] text_lines(text)[i]).len() > 0
                ==> parse_docs(text).contains(trimmed(text_lines(text)[i])),
        forall|k: int|
            0 <= k < parse_docs(text).len() ==> (#[trigger] parse_docs(text)[k]).len() > 0 && exists|
                i: int,
            |
                0 <= i < text_lines(text).len() && parse_docs(text)[k] == trimmed(
                    #[trigger] text_lines(text)[i],
                ),
{
    let lines = text_lines(text);
    let m = lines.map_values(|l: Seq<char>| trimmed(l));
    let pred = |t: Seq<char>| t.len() > 0;
    lemma_kept_lines_filter(lines);
    assert forall|i: int| 0 <= i < lines.len() && trimmed(#[trigger] lines[i]).len() > 0 implies parse_docs(
        text,
    ).contains(trimmed(lines[i])) by {
        assert(m[i] == trimmed(lines[i]));
        m.lemma_filter_contains(pred, i);
    }
    assert forall|k: int| 0 <= k < parse_docs(text).len() implies (#[trigger] parse_docs(
        text,
    )[k]).len() > 0 && exists|i: int|
        0 <= i < lines.len() && parse_docs(text)[k] == trimmed(#[trigger] lines[i]) by {
        m.lemma_filter_pred(pred, k);
        assert(m.filter(pred).contains(m.filter(pred)[k]));
        m.lemma_filter_contains_rev(pred, m.filter(pred)[k]);
        let i = choose|i: int| 0 <= i < m.len() && m[i] == m.filter(pred)[k];
        assert(parse_docs(text)[k] == trimmed(lines[i]));
    }
}

/// The trimmed content of `line`, or `None` when nothing but whitespace is left.
fn trimmed_line(line: &Vec<char>) -> (r: Option<String>)
    ensures
        r is None <==> trimmed(line@).len() == 0,
        r matches Some(s) ==> s@ == trimmed(line@),
{
    let n = line.len();
    let mut a: usize = 0;
    assert(line@.skip(0) =~= line@);
    loop
        invariant
            n == line@.len(),
            a <= n,
            trim_start(line@) == trim_start(line@.skip(a as int)),
        ensures
            a <= n,
            trim_start(line@) == line@.skip(a as int),
        decreases n - a,
    {
        if a == n {
            assert(line@.skip(a as int) =~= Seq::<char>::empty());
            break;
        }
        if !char_is_whitespace(line[a]) {
            break;
        }
        assert(line@.skip(a as int).drop_first() =~= line@.skip(a + 1));
        a += 1;
    }
    let ghost start = line@.skip(a as int);
    let mut b: usize = n;
    loop
        invariant
            n == line@.len(),
            a <= b <= n,
            start == line@.skip(a as int),
            trim_end(start) == trim_end(line@.subrange(a as int, b as int)),
        ensures
            a <= b <= n,
            trim_end(start) == line@.subrange(a as int, b as int),
        decreases b,
    {
        if b == a {
            assert(line@.subrange(a as int, b as int) =~= Seq::<char>::empty());
            break;
        }
        if !char_is_whitespace(line[b - 1]) {
            break;
        }
        assert(line@.subrange(a as int, b as int).drop_last() =~= line@.subrange(a as int, b - 1));
        b -= 1;
    }
    proof {
        assert(line@.subrange(a as int, n as int) =~= start);
    }
    if a == b {
        return None;
    }
    let mut s = String::new();
    let mut k = a;
    while k < b
        invariant
            n == line@.len(),
            a <= k <= b <= n,
            s@ == line@.subrange(a as int, k as int),
        decreases b - k,
    {
        string_push(&mut s, line[k]);
        assert(s@ =~= line@.subrange(a as int, k + 1));
        k += 1;
    }
    Some(s)
}

/// Split a dataset text into documents: one per line (lines end at `'\n'` or `"\r\n"`), with
/// leading and trailing whitespace removed, skipping lines that are then empty. Returns `None`
/// when no document is left.
pub fn docs_from_text(text: &str) -> (r: Option<Vec<String>>)
    ensures
        r is None <==> parse_docs(text@).len() == 0,
        r matches Some(docs) ==> crate::tokenizer::views(docs@) == parse_docs(text@),
        r is None <==> text_lines(text@).filter(|l: Seq<char>| trimmed(l).len() > 0).len() == 0,
        r matches Some(docs) ==> crate::tokenizer::views(docs@) == text_lines(text@).map_values(
            |l: Seq<char>| trimmed(l),
        ).filter(|t: Seq<char>| t.len() > 0),
{
    broadcast use vstd::string::axiom_spec_iter;
    let mut docs: Vec<String> = Vec::new();
    let mut cur: Vec<char> = Vec::new();
    let chars = text.chars();
    for ch in it: chars
        invariant
            it.seq() == text@,
            split_lines(text@.take(it.index())).1 == cur@,
            crate::tokenizer::views(docs@) == kept_lines(
                split_lines(text@.take(it.index())).0.map_values(|l: Seq<char>| strip_cr(l)),
            ),
    {
        let ghost i = it.index();
        let ghost before = split_lines(text@.take(i));
        proof {
            assert(ch == text@[i]);
            assert(text@.take(i + 1).drop_last() =~= text@.take(i));
        }
        if ch == '\n' {
            let len = cur.len();
            if len > 0 && cur[len - 1] == '\r' {
                cur.pop();
            }
            let ghost line = cur@;
            assert(line == strip_cr(before.1));
            let ghost ended = before.0.map_values(|l: Seq<char>| strip_cr(l));
            proof {
                assert(before.0.push(before.1).map_values(|l: Seq<char>| strip_cr(l)) =~= ended.push(line));
                assert(ended.push(line).drop_last() =~= ended);
            }
            match trimmed_line(&cur) {
                Some(t) => {
                    let ghost v = crate::tokenizer::views(docs@);
                    docs.push(t);
                    assert(crate::tokenizer::views(docs@) =~= v.push(trimmed(line)));
                },
                None => {},
            }
            cur = Vec::new();
        } else {
            cur.push(ch);
        }
    }
    proof {
        assert(text@.take(text@.len() as int) =~= text@);
    }
    let ghost lines = split_lines(text@);
    let ghost ended = lines.0.map_values(|l: Seq<char>| strip_cr(l));
    if cur.len() > 0 {
        proof {
            assert(ended.push(cur@).drop_last() =~= ended);
        }
        match trimmed_line(&cur) {
            Some(t) => {
                let ghost v = crate::tokenizer::views(docs@);
                docs.push(t);
                assert(crate::tokenizer::views(docs@) =~= v.push(trimmed(cur@)));
            },
            None => {},
        }
    }
    proof {
        lemma_docs_are_nonblank_trimmed_lines(text@);
    }
    if docs.len() == 0 {
        None
    } else {
        Some(docs)
    }
}

} // verus!
