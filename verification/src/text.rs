//! Searching, cutting and rendering of character sequences.
//!
//! Every contract here speaks of a string by its view, a `Seq<char>`.

use vstd::prelude::*;

verus! {

/// `String::push` appends one character at the end of the string and leaves
/// what was there unchanged.
pub assume_specification[ String::push ](s: &mut String, ch: char)
    ensures
        final(s)@ == old(s)@.push(ch),
;

/// `pattern` stands in `text` at position `at`.
pub open spec fn occurs_at(text: Seq<char>, pattern: Seq<char>, at: int) -> bool {
    &&& 0 <= at
    &&& at + pattern.len() <= text.len()
    &&& text.subrange(at, at + pattern.len()) == pattern
}

/// The leftmost position at or after `from` at which `pattern` stands in `text`.
pub open spec fn find_from(text: Seq<char>, pattern: Seq<char>, from: int) -> Option<int>
    decreases text.len() + 1 - from,
{
    if from < 0 || from + pattern.len() > text.len() {
        None
    } else if occurs_at(text, pattern, from) {
        Some(from)
    } else {
        find_from(text, pattern, from + 1)
    }
}

/// `pattern` stands somewhere in `text`.
pub open spec fn contains(text: Seq<char>, pattern: Seq<char>) -> bool {
    exists|at: int| occurs_at(text, pattern, at)
}

/// What is left of `text` from `from` on once every occurrence of `pattern` is
/// taken out, the occurrences being found from left to right and never
/// overlapping. An empty pattern takes nothing out.
pub open spec fn remove_from(text: Seq<char>, pattern: Seq<char>, from: int) -> Seq<char>
    decreases text.len() - from,
{
    if pattern.len() == 0 || from < 0 {
        text.skip(from)
    } else {
        proof {
            lemma_find_from(text, pattern, from);
        }
        match find_from(text, pattern, from) {
            None => text.skip(from),
            Some(at) => text.subrange(from, at) + remove_from(text, pattern, at + pattern.len()),
        }
    }
}

/// `text` without the occurrences of `pattern`.
pub open spec fn remove_all(text: Seq<char>, pattern: Seq<char>) -> Seq<char> {
    remove_from(text, pattern, 0)
}

/// The fields into which the occurrences of `separator` cut `text` from
/// `from` on. An empty separator cuts nowhere.
pub open spec fn fields_from(text: Seq<char>, separator: Seq<char>, from: int) -> Seq<Seq<char>>
    decreases text.len() - from,
{
    if separator.len() == 0 || from < 0 {
        seq![text.skip(from)]
    } else {
        proof {
            lemma_find_from(text, separator, from);
        }
        match find_from(text, separator, from) {
            None => seq![text.skip(from)],
            Some(at) => seq![text.subrange(from, at)] + fields_from(
                text,
                separator,
                at + separator.len(),
            ),
        }
    }
}

/// The fields into which the occurrences of `separator` cut `text`: one more
/// than there are occurrences.
pub open spec fn split(text: Seq<char>, separator: Seq<char>) -> Seq<Seq<char>> {
    fields_from(text, separator, 0)
}

/// The number that stands for `c` when the case of ASCII letters is ignored.
pub open spec fn ascii_fold(c: char) -> int {
    if 'A' <= c && c <= 'Z' {
        c as int + 32
    } else {
        c as int
    }
}

/// `a` and `b` are equal but for the case of their ASCII letters.
pub open spec fn eq_ignore_ascii_case(a: Seq<char>, b: Seq<char>) -> bool {
    &&& a.len() == b.len()
    &&& forall|i: int| 0 <= i < a.len() ==> ascii_fold(#[trigger] a[i]) == ascii_fold(b[i])
}

/// The decimal digit for `d`, which is below ten.
pub open spec fn digit(d: nat) -> char {
    if d == 0 {
        '0'
    } else if d == 1 {
        '1'
    } else if d == 2 {
        '2'
    } else if d == 3 {
        '3'
    } else if d == 4 {
        '4'
    } else if d == 5 {
        '5'
    } else if d == 6 {
        '6'
    } else if d == 7 {
        '7'
    } else if d == 8 {
        '8'
    } else {
        '9'
    }
}

/// `n` written in decimal, without leading zeros.
pub open spec fn decimal(n: nat) -> Seq<char>
    decreases n,
{
    if n < 10 {
        seq![digit(n)]
    } else {
        decimal(n / 10).push(digit(n % 10))
    }
}

/// What `find_from` returns is an occurrence, and none lies between `from` and it.
pub proof fn lemma_find_from(text: Seq<char>, pattern: Seq<char>, from: int)
    requires
        0 <= from,
    ensures
        match find_from(text, pattern, from) {
            Some(at) => {
                &&& from <= at
                &&& occurs_at(text, pattern, at)
                &&& forall|k: int| from <= k < at ==> !occurs_at(text, pattern, k)
            },
            None => forall|k: int| from <= k ==> !occurs_at(text, pattern, k),
        },
    decreases text.len() + 1 - from,
{
    if from + pattern.len() > text.len() {
    } else if occurs_at(text, pattern, from) {
    } else {
        lemma_find_from(text, pattern, from + 1);
    }
}

/// Every character of what `remove_from` leaves is a character of `text`.
pub proof fn lemma_remove_from_keeps(text: Seq<char>, pattern: Seq<char>, from: int, c: char)
    requires
        0 <= from <= text.len(),
        remove_from(text, pattern, from).contains(c),
    ensures
        text.contains(c),
    decreases text.len() - from,
{
    let rest = remove_from(text, pattern, from);
    let i = choose|i: int| 0 <= i < rest.len() && rest[i] == c;
    if pattern.len() == 0 {
        assert(text[from + i] == c);
    } else {
        lemma_find_from(text, pattern, from);
        match find_from(text, pattern, from) {
            None => {
                assert(text[from + i] == c);
            },
            Some(at) => {
                if i < at - from {
                    assert(text[from + i] == c);
                } else {
                    let tail = remove_from(text, pattern, at + pattern.len());
                    assert(tail[i - (at - from)] == c);
                    lemma_remove_from_keeps(text, pattern, at + pattern.len(), c);
                }
            },
        }
    }
}

/// Every character of `text` without the occurrences of `pattern` is a character of `text`.
pub proof fn lemma_remove_all_keeps(text: Seq<char>, pattern: Seq<char>, c: char)
    requires
        remove_all(text, pattern).contains(c),
    ensures
        text.contains(c),
{
    lemma_remove_from_keeps(text, pattern, 0, c);
}

/// The characters of `s`, one by one.
pub fn chars_of(s: &str) -> (chars: Vec<char>)
    ensures
        chars@ == s@,
{
    let mut chars: Vec<char> = Vec::new();
    for c in it: s.chars()
        invariant
            it.seq() == s@,
            chars@ == it.seq().take(it.index()),
    {
        chars.push(c);
    }
    assert(s@.take(s@.len() as int) == s@);
    chars
}

/// The string made of `chars`.
pub fn string_of(chars: &Vec<char>) -> (s: String)
    ensures
        s@ == chars@,
{
    let mut s = String::new();
    let mut i: usize = 0;
    while i < chars.len()
        invariant
            i <= chars.len(),
            s@ == chars@.take(i as int),
        decreases chars.len() - i,
    {
        s.push(chars[i]);
        assert(chars@.take(i + 1) == chars@.take(i as int).push(chars@[i as int]));
        i += 1;
    }
    assert(chars@.take(chars@.len() as int) == chars@);
    s
}

/// Adds the characters of `more` from `from` up to `to` at the end of `out`.
pub fn push_all(out: &mut Vec<char>, more: &Vec<char>, from: usize, to: usize)
    requires
        from <= to <= more.len(),
    ensures
        final(out)@ == old(out)@ + more@.subrange(from as int, to as int),
{
    let mut i: usize = from;
    while i < to
        invariant
            from <= i <= to <= more.len(),
            out@ == old(out)@ + more@.subrange(from as int, i as int),
        decreases to - i,
    {
        out.push(more[i]);
        assert(more@.subrange(from as int, i + 1) == more@.subrange(from as int, i as int).push(
            more@[i as int],
        ));
        i += 1;
    }
}

/// Adds the characters of `more` at the end of `out`.
pub fn push_str(out: &mut Vec<char>, more: &str)
    ensures
        final(out)@ == old(out)@ + more@,
{
    let chars = chars_of(more);
    push_all(out, &chars, 0, chars.len());
    assert(chars@.subrange(0, chars@.len() as int) == chars@);
}

/// Whether `pattern` stands in `text` at `at`.
pub fn matches_at(text: &Vec<char>, pattern: &Vec<char>, at: usize) -> (found: bool)
    ensures
        found == occurs_at(text@, pattern@, at as int),
{
    if pattern.len() > text.len() || at > text.len() - pattern.len() {
        return false;
    }
    let mut i: usize = 0;
    while i < pattern.len()
        invariant
            i <= pattern.len(),
            at + pattern.len() <= text.len(),
            forall|k: int| 0 <= k < i ==> text@[at + k] == pattern@[k],
        decreases pattern.len() - i,
    {
        if text[at + i] != pattern[i] {
            assert(text@.subrange(at as int, at + pattern.len())[i as int] != pattern@[i as int]);
            return false;
        }
        i += 1;
    }
    assert(text@.subrange(at as int, at + pattern.len()) =~= pattern@);
    true
}

/// The leftmost position at or after `from` at which `pattern` stands in `text`.
pub fn find(text: &Vec<char>, pattern: &Vec<char>, from: usize) -> (found: Option<usize>)
    ensures
        match found {
            Some(at) => find_from(text@, pattern@, from as int) == Some(at as int),
            None => find_from(text@, pattern@, from as int) is None,
        },
{
    if pattern.len() > text.len() {
        return None;
    }
    let last: usize = text.len() - pattern.len();
    let mut at: usize = from;
    while at <= last
        invariant
            from <= at,
            last + pattern.len() == text.len(),
            find_from(text@, pattern@, from as int) == find_from(text@, pattern@, at as int),
        decreases last + 1 - at,
    {
        if matches_at(text, pattern, at) {
            return Some(at);
        }
        if at == last {
            assert(find_from(text@, pattern@, at + 1) is None);
            return None;
        }
        at += 1;
    }
    None
}

/// Whether `pattern` stands somewhere in `text`.
pub fn has_occurrence(text: &Vec<char>, pattern: &Vec<char>) -> (found: bool)
    ensures
        found == contains(text@, pattern@),
{
    proof {
        lemma_find_from(text@, pattern@, 0);
    }
    match find(text, pattern, 0) {
        Some(at) => true,
        None => false,
    }
}

/// `text` without the occurrences of `pattern`.
pub fn without(text: &Vec<char>, pattern: &Vec<char>) -> (out: Vec<char>)
    ensures
        out@ == remove_all(text@, pattern@),
{
    let mut out: Vec<char> = Vec::new();
    if pattern.len() == 0 {
        push_all(&mut out, text, 0, text.len());
        assert(text@.subrange(0, text@.len() as int) == text@.skip(0));
        return out;
    }
    let mut from: usize = 0;
    loop
        invariant_except_break
            from <= text.len(),
            pattern.len() > 0,
            remove_all(text@, pattern@) == out@ + remove_from(text@, pattern@, from as int),
        ensures
            out@ == remove_all(text@, pattern@),
        decreases text.len() - from,
    {
        proof {
            lemma_find_from(text@, pattern@, from as int);
        }
        match find(text, pattern, from) {
            None => {
                push_all(&mut out, text, from, text.len());
                assert(text@.subrange(from as int, text@.len() as int) == text@.skip(from as int));
                break ;
            },
            Some(at) => {
                let ghost before = out@;
                push_all(&mut out, text, from, at);
                assert(before + (text@.subrange(from as int, at as int) + remove_from(
                    text@,
                    pattern@,
                    at + pattern.len(),
                )) == out@ + remove_from(text@, pattern@, at + pattern.len()));
                from = at + pattern.len();
            },
        }
    }
    out
}

/// The views of the fields in `parts`.
pub open spec fn views(parts: Seq<Vec<char>>) -> Seq<Seq<char>> {
    parts.map_values(|part: Vec<char>| part@)
}

/// The fields into which the occurrences of `separator` cut `text`.
pub fn split_fields(text: &Vec<char>, separator: &Vec<char>) -> (parts: Vec<Vec<char>>)
    ensures
        views(parts@) == split(text@, separator@),
{
    let mut parts: Vec<Vec<char>> = Vec::new();
    if separator.len() == 0 {
        let mut whole: Vec<char> = Vec::new();
        push_all(&mut whole, text, 0, text.len());
        parts.push(whole);
        assert(text@.subrange(0, text@.len() as int) == text@.skip(0));
        assert(views(parts@) =~= seq![text@.skip(0)]);
        return parts;
    }
    let mut from: usize = 0;
    loop
        invariant_except_break
            from <= text.len(),
            separator.len() > 0,
            split(text@, separator@) == views(parts@) + fields_from(
                text@,
                separator@,
                from as int,
            ),
        ensures
            views(parts@) == split(text@, separator@),
        decreases text.len() - from,
    {
        proof {
            lemma_find_from(text@, separator@, from as int);
        }
        let ghost before = parts@;
        let mut field: Vec<char> = Vec::new();
        match find(text, separator, from) {
            None => {
                push_all(&mut field, text, from, text.len());
                parts.push(field);
                assert(text@.subrange(from as int, text@.len() as int) == text@.skip(from as int));
                assert(views(parts@) =~= views(before) + seq![text@.skip(from as int)]);
                break ;
            },
            Some(at) => {
                push_all(&mut field, text, from, at);
                parts.push(field);
                assert(views(parts@) =~= views(before) + seq![
                    text@.subrange(from as int, at as int),
                ]);
                assert(views(before) + (seq![text@.subrange(from as int, at as int)] + fields_from(
                    text@,
                    separator@,
                    at + separator.len(),
                )) == views(parts@) + fields_from(text@, separator@, at + separator.len()));
                from = at + separator.len();
            },
        }
    }
    parts
}

/// Whether `a` and `b` are equal but for the case of their ASCII letters.
pub fn same_ignoring_ascii_case(a: &Vec<char>, b: &Vec<char>) -> (same: bool)
    ensures
        same == eq_ignore_ascii_case(a@, b@),
{
    if a.len() != b.len() {
        return false;
    }
    let mut i: usize = 0;
    while i < a.len()
        invariant
            i <= a.len(),
            a.len() == b.len(),
            forall|k: int| 0 <= k < i ==> ascii_fold(#[trigger] a@[k]) == ascii_fold(b@[k]),
        decreases a.len() - i,
    {
        if folded(a[i]) != folded(b[i]) {
            return false;
        }
        i += 1;
    }
    true
}

/// The number that stands for `c` when the case of ASCII letters is ignored.
pub fn folded(c: char) -> (n: u32)
    ensures
        n == ascii_fold(c),
{
    let n: u32 = c as u32;
    if 65 <= n && n <= 90 {
        n + 32
    } else {
        n
    }
}

/// The decimal digit for `d`.
pub fn digit_of(d: usize) -> (c: char)
    requires
        d < 10,
    ensures
        c == digit(d as nat),
{
    if d == 0 {
        '0'
    } else if d == 1 {
        '1'
    } else if d == 2 {
        '2'
    } else if d == 3 {
        '3'
    } else if d == 4 {
        '4'
    } else if d == 5 {
        '5'
    } else if d == 6 {
        '6'
    } else if d == 7 {
        '7'
    } else if d == 8 {
        '8'
    } else {
        '9'
    }
}

/// `n` written in decimal.
pub fn decimal_of(n: usize) -> (digits: Vec<char>)
    ensures
        digits@ == decimal(n as nat),
    decreases n,
{
    if n < 10 {
        let mut digits: Vec<char> = Vec::new();
        digits.push(digit_of(n));
        assert(digits@ =~= seq![digit(n as nat)]);
        digits
    } else {
        let mut digits = decimal_of(n / 10);
        digits.push(digit_of(n % 10));
        digits
    }
}

} // verus!
