//! Cutting up the short texts that rules and task lines are written in.

use vstd::prelude::*;
use vstd::string::StrSliceExecFns;
use vstd::string::StringExecFns;

verus! {

/// The characters that count as white space.
pub open spec fn is_space(c: char) -> bool {
    ||| c == '\u{9}'
    ||| c == '\u{a}'
    ||| c == '\u{b}'
    ||| c == '\u{c}'
    ||| c == '\u{d}'
    ||| c == ' '
    ||| c == '\u{85}'
    ||| c == '\u{a0}'
    ||| c == '\u{1680}'
    ||| c == '\u{2000}'
    ||| c == '\u{2001}'
    ||| c == '\u{2002}'
    ||| c == '\u{2003}'
    ||| c == '\u{2004}'
    ||| c == '\u{2005}'
    ||| c == '\u{2006}'
    ||| c == '\u{2007}'
    ||| c == '\u{2008}'
    ||| c == '\u{2009}'
    ||| c == '\u{200a}'
    ||| c == '\u{2028}'
    ||| c == '\u{2029}'
    ||| c == '\u{202f}'
    ||| c == '\u{205f}'
    ||| c == '\u{3000}'
}

/// `s` without the white space at its start.
pub open spec fn strip_start(s: Seq<char>) -> Seq<char>
    decreases s.len(),
{
    if s.len() > 0 && is_space(s[0]) {
        strip_start(s.drop_first())
    } else {
        s
    }
}

/// `s` without the white space at its end.
pub open spec fn strip_end(s: Seq<char>) -> Seq<char>
    decreases s.len(),
{
    if s.len() > 0 && is_space(s.last()) {
        strip_end(s.drop_last())
    } else {
        s
    }
}

/// `s` without the white space at its start and at its end.
pub open spec fn trimmed(s: Seq<char>) -> Seq<char> {
    strip_end(strip_start(s))
}

/// The pieces of `s` between the occurrences of `mark`: one more than
/// there are occurrences.
pub open spec fn pieces(s: Seq<char>, mark: char) -> Seq<Seq<char>>
    decreases s.len(),
{
    if s.len() == 0 {
        seq![Seq::<char>::empty()]
    } else {
        let before = pieces(s.drop_last(), mark);
        if s.last() == mark {
            before.push(Seq::<char>::empty())
        } else {
            before.update(before.len() - 1, before.last().push(s.last()))
        }
    }
}

/// `s` begins with `head`.
pub open spec fn begins_with(s: Seq<char>, head: Seq<char>) -> bool {
    s.len() >= head.len() && s.take(head.len() as int) == head
}

/// The views of a run of strings.
pub open spec fn string_views(strings: Seq<String>) -> Seq<Seq<char>> {
    Seq::new(strings.len(), |i: int| strings[i]@)
}

proof fn lemma_strip_start(s: Seq<char>, from: int)
    requires
        0 <= from <= s.len(),
        forall|j: int| 0 <= j < from ==> is_space(#[trigger] s[j]),
        from < s.len() ==> !is_space(s[from]),
    ensures
        strip_start(s) == s.skip(from),
    decreases s.len(),
{
    if from == 0 {
        assert(s.skip(0) =~= s);
    } else {
        assert(is_space(s[0]));
        let rest = s.drop_first();
        assert forall|j: int| 0 <= j < from - 1 implies is_space(#[trigger] rest[j]) by {
            assert(rest[j] == s[j + 1]);
        }
        if from - 1 < rest.len() {
            assert(rest[from - 1] == s[from]);
        }
        lemma_strip_start(rest, from - 1);
        assert(rest.skip(from - 1) =~= s.skip(from));
    }
}

proof fn lemma_strip_end(s: Seq<char>, to: int)
    requires
        0 <= to <= s.len(),
        forall|j: int| to <= j < s.len() ==> is_space(#[trigger] s[j]),
        to > 0 ==> !is_space(s[to - 1]),
    ensures
        strip_end(s) == s.take(to),
    decreases s.len(),
{
    if to == s.len() {
        assert(s.take(to) =~= s);
    } else {
        assert(is_space(s[s.len() - 1]));
        let rest = s.drop_last();
        assert forall|j: int| to <= j < rest.len() implies is_space(#[trigger] rest[j]) by {
            assert(rest[j] == s[j]);
        }
        if to > 0 {
            assert(rest[to - 1] == s[to - 1]);
        }
        lemma_strip_end(rest, to);
        assert(rest.take(to) =~= s.take(to));
    }
}

/// Whether `c` counts as white space.
pub fn is_space_char(c: char) -> (r: bool)
    ensures
        r == is_space(c),
{
    c == '\u{9}' || c == '\u{a}' || c == '\u{b}' || c == '\u{c}' || c == '\u{d}' || c == ' ' || c
        == '\u{85}' || c == '\u{a0}' || c == '\u{1680}' || c == '\u{2000}' || c == '\u{2001}' || c
        == '\u{2002}' || c == '\u{2003}' || c == '\u{2004}' || c == '\u{2005}' || c == '\u{2006}'
        || c == '\u{2007}' || c == '\u{2008}' || c == '\u{2009}' || c == '\u{200a}' || c
        == '\u{2028}' || c == '\u{2029}' || c == '\u{202f}' || c == '\u{205f}' || c == '\u{3000}'
}

/// The characters of `text`.
pub fn chars_of(text: &str) -> (r: Vec<char>)
    ensures
        r@ == text@,
{
    let len: usize = text.unicode_len();
    let mut out: Vec<char> = Vec::new();
    let mut i: usize = 0;
    while i < len
        invariant
            len == text@.len(),
            i <= len,
            out@ == text@.take(i as int),
        decreases len - i,
    {
        out.push(text.get_char(i));
        assert(text@.take(i as int).push(text@[i as int]) =~= text@.take(i as int + 1));
        i += 1;
    }
    assert(text@.take(len as int) =~= text@);
    out
}

/// `text` without the white space at its start and at its end.
pub fn trim(text: &str) -> (r: String)
    ensures
        r@ == trimmed(text@),
{
    let chars = chars_of(text);
    let mut from: usize = 0;
    while from < chars.len() && is_space_char(chars[from])
        invariant
            from <= chars.len(),
            forall|j: int| 0 <= j < from ==> is_space(#[trigger] chars@[j]),
        decreases chars.len() - from,
    {
        from += 1;
    }
    let mut to: usize = chars.len();
    while to > from && is_space_char(chars[to - 1])
        invariant
            from <= to <= chars.len(),
            forall|j: int| to <= j < chars.len() ==> is_space(#[trigger] chars@[j]),
        decreases to,
    {
        to -= 1;
    }
    proof {
        lemma_strip_start(chars@, from as int);
        let rest = chars@.skip(from as int);
        assert forall|j: int| to - from <= j < rest.len() implies is_space(#[trigger] rest[j]) by {
            assert(rest[j] == chars@[j + from]);
        }
        if to > from {
            assert(rest[to - from - 1] == chars@[to - 1]);
        }
        lemma_strip_end(rest, to - from);
        assert(rest.take(to - from) =~= text@.subrange(from as int, to as int));
    }
    String::from_str(text.substring_char(from, to))
}

/// The pieces of `text` between the occurrences of `mark`.
pub fn split(text: &str, mark: char) -> (r: Vec<String>)
    ensures
        string_views(r@) == pieces(text@, mark),
{
    let chars = chars_of(text);
    let mut out: Vec<String> = Vec::new();
    let mut from: usize = 0;
    let mut i: usize = 0;
    assert(chars@.take(0) =~= Seq::<char>::empty());
    assert(text@.subrange(0, 0) =~= Seq::<char>::empty());
    assert(string_views(out@).push(Seq::<char>::empty()) =~= pieces(chars@.take(0), mark));
    while i < chars.len()
        invariant
            chars@ == text@,
            from <= i <= chars.len(),
            string_views(out@).push(text@.subrange(from as int, i as int)) == pieces(
                chars@.take(i as int),
                mark,
            ),
        decreases chars.len() - i,
    {
        let ghost done = string_views(out@);
        let ghost upto = chars@.take(i as int + 1);
        proof {
            assert(upto.drop_last() =~= chars@.take(i as int));
            assert(upto.last() == chars@[i as int]);
        }
        if chars[i] == mark {
            let ghost start = from;
            out.push(String::from_str(text.substring_char(from, i)));
            from = i + 1;
            proof {
                assert(text@.subrange(from as int, i as int + 1) =~= Seq::<char>::empty());
                assert(string_views(out@) =~= done.push(text@.subrange(start as int, i as int)));
            }
        } else {
            proof {
                let held = done.push(text@.subrange(from as int, i as int));
                assert(held.update(
                    held.len() - 1,
                    held.last().push(chars@[i as int]),
                ) =~= done.push(text@.subrange(from as int, i as int + 1))) by {
                    assert(text@.subrange(from as int, i as int).push(chars@[i as int])
                        =~= text@.subrange(from as int, i as int + 1));
                }
            }
        }
        i += 1;
    }
    proof {
        assert(chars@.take(i as int) =~= chars@);
    }
    let ghost done = string_views(out@);
    out.push(String::from_str(text.substring_char(from, i)));
    assert(string_views(out@) =~= done.push(text@.subrange(from as int, i as int)));
    out
}

} // verus!
