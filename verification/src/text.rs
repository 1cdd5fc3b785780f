//! Text as sequences of characters: white space, trimming, searching and
//! splitting. Every executable function here works on a slice of `char` and is
//! specified over the `Seq<char>` that the slice stands for.

use vstd::prelude::*;
use vstd::slice::{slice_subrange, slice_to_vec};

verus! {

/// The characters with the Unicode property `White_Space`.
pub open spec fn is_whitespace(c: char) -> bool {
    let n = c as u32;
    ||| 0x09 <= n <= 0x0D
    ||| n == 0x20
    ||| n == 0x85
    ||| n == 0xA0
    ||| n == 0x1680
    ||| 0x2000 <= n <= 0x200A
    ||| n == 0x2028
    ||| n == 0x2029
    ||| n == 0x202F
    ||| n == 0x205F
    ||| n == 0x3000
}

/// The ASCII capital letters.
pub open spec fn is_ascii_uppercase(c: char) -> bool {
    'A' <= c <= 'Z'
}

/// The code point of `c`, or of its small letter where `c` is an ASCII capital
/// letter.
pub open spec fn ascii_folded(c: char) -> u32 {
    if is_ascii_uppercase(c) {
        ((c as u32) + 32) as u32
    } else {
        c as u32
    }
}

/// Index of the first character at or after `i` that is not white space; the
/// length of `s` if there is none.
pub open spec fn first_non_space(s: Seq<char>, i: int) -> int
    decreases s.len() - i,
{
    if 0 <= i < s.len() && is_whitespace(s[i]) {
        first_non_space(s, i + 1)
    } else {
        i
    }
}

/// Index of the first white-space character at or after `i`; the length of `s`
/// if there is none.
pub open spec fn first_space(s: Seq<char>, i: int) -> int
    decreases s.len() - i,
{
    if 0 <= i < s.len() && !is_whitespace(s[i]) {
        first_space(s, i + 1)
    } else {
        i
    }
}

/// The largest `e` in `lo..=j` with `e == lo` or `s[e - 1]` not white space:
/// where the text ends once trailing white space is cut off.
pub open spec fn trimmed_end(s: Seq<char>, lo: int, j: int) -> int
    decreases j - lo,
{
    if lo < j <= s.len() && is_whitespace(s[j - 1]) {
        trimmed_end(s, lo, j - 1)
    } else {
        j
    }
}

/// `s` without its leading and trailing white space.
pub open spec fn trimmed(s: Seq<char>) -> Seq<char> {
    let a = first_non_space(s, 0);
    s.subrange(a, trimmed_end(s, a, s.len() as int))
}

/// Index of the first `c` at or after `i`; the length of `s` if there is none.
pub open spec fn index_from(s: Seq<char>, c: char, i: int) -> int
    decreases s.len() - i,
{
    if 0 <= i < s.len() && s[i] != c {
        index_from(s, c, i + 1)
    } else {
        i
    }
}

/// One more than the index of the last `c` before `j`; 0 if there is none.
pub open spec fn end_of_last(s: Seq<char>, c: char, j: int) -> int
    decreases j,
{
    if 0 < j <= s.len() && s[j - 1] != c {
        end_of_last(s, c, j - 1)
    } else {
        j
    }
}

/// What stands before the first `;` of a line: the line without its comment.
pub open spec fn before_comment(line: Seq<char>) -> Seq<char> {
    line.take(index_from(line, ';', 0))
}

/// A source line as the parser reads it: comment removed, then trimmed.
pub open spec fn cleaned(line: Seq<char>) -> Seq<char> {
    trimmed(before_comment(line))
}

/// The maximal runs of characters of `s` that hold no white space, in order.
pub open spec fn tokens(s: Seq<char>) -> Seq<Seq<char>>
    decreases s.len(),
{
    let a = first_non_space(s, 0);
    let b = first_space(s, a);
    if 0 <= a < b <= s.len() {
        seq![s.subrange(a, b)] + tokens(s.skip(b))
    } else {
        Seq::empty()
    }
}

/// The pieces of `s` between its occurrences of `sep`; always at least one.
pub open spec fn pieces(s: Seq<char>, sep: char) -> Seq<Seq<char>>
    decreases s.len(),
{
    let k = index_from(s, sep, 0);
    if 0 <= k < s.len() {
        seq![s.take(k)] + pieces(s.skip(k + 1), sep)
    } else {
        seq![s]
    }
}

/// The lines of a text: its pieces between line feeds, where a text that ends
/// in a line feed has no empty last line. A carriage return before the line
/// feed stays on its line; it is white space and goes when the line is trimmed.
pub open spec fn lines_of(text: Seq<char>) -> Seq<Seq<char>>
    decreases text.len(),
{
    let k = index_from(text, '\n', 0);
    if text.len() == 0 {
        Seq::empty()
    } else if 0 <= k < text.len() {
        seq![text.take(k)] + lines_of(text.skip(k + 1))
    } else {
        seq![text]
    }
}

/// Equality of two texts up to the case of ASCII letters.
pub open spec fn same_ignoring_ascii_case(a: Seq<char>, b: Seq<char>) -> bool {
    &&& a.len() == b.len()
    &&& forall|i: int| 0 <= i < a.len() ==> ascii_folded(#[trigger] a[i]) == ascii_folded(b[i])
}

/// The views of a sequence of slices.
pub open spec fn views(parts: Seq<&[char]>) -> Seq<Seq<char>> {
    Seq::new(parts.len(), |i: int| parts[i]@)
}

/// The views of a sequence of vectors.
pub open spec fn rows(lines: Seq<Vec<char>>) -> Seq<Seq<char>> {
    Seq::new(lines.len(), |i: int| lines[i]@)
}

/// `first_non_space` stays within the text, stops at a character that is no
/// white space, and passes over white space only.
pub proof fn lemma_first_non_space_bounds(s: Seq<char>, i: int)
    requires
        0 <= i <= s.len(),
    ensures
        i <= first_non_space(s, i) <= s.len(),
        first_non_space(s, i) < s.len() ==> !is_whitespace(s[first_non_space(s, i)]),
        forall|k: int| i <= k < first_non_space(s, i) ==> is_whitespace(#[trigger] s[k]),
    decreases s.len() - i,
{
    if i < s.len() && is_whitespace(s[i]) {
        lemma_first_non_space_bounds(s, i + 1);
    }
}

/// `trimmed_end` stays between `lo` and `j` and stops behind a character that
/// is no white space.
pub proof fn lemma_trimmed_end_bounds(s: Seq<char>, lo: int, j: int)
    requires
        0 <= lo <= j <= s.len(),
    ensures
        lo <= trimmed_end(s, lo, j) <= j,
        lo < trimmed_end(s, lo, j) ==> !is_whitespace(s[trimmed_end(s, lo, j) - 1]),
    decreases j - lo,
{
    if lo < j && is_whitespace(s[j - 1]) {
        lemma_trimmed_end_bounds(s, lo, j - 1);
    }
}

/// `index_from` stays within the text, stops at a `c`, and passes over no `c`.
pub proof fn lemma_index_from_bounds(s: Seq<char>, c: char, i: int)
    requires
        0 <= i <= s.len(),
    ensures
        i <= index_from(s, c, i) <= s.len(),
        index_from(s, c, i) < s.len() ==> s[index_from(s, c, i)] == c,
        forall|k: int| i <= k < index_from(s, c, i) ==> #[trigger] s[k] != c,
    decreases s.len() - i,
{
    if i < s.len() && s[i] != c {
        lemma_index_from_bounds(s, c, i + 1);
    }
}

/// The first `c` of a text is found where a `c` stands with none before it.
pub proof fn lemma_index_from_found(s: Seq<char>, c: char, k: int)
    requires
        0 <= k <= s.len(),
        forall|j: int| 0 <= j < k ==> s[j] != c,
        k < s.len() ==> s[k] == c,
    ensures
        index_from(s, c, 0) == k,
{
    lemma_index_from_bounds(s, c, 0);
}

/// `end_of_last` stays within the text, stops behind a `c`, and passes over no
/// `c`.
pub proof fn lemma_end_of_last_bounds(s: Seq<char>, c: char, j: int)
    requires
        0 <= j <= s.len(),
    ensures
        0 <= end_of_last(s, c, j) <= j,
        0 < end_of_last(s, c, j) ==> s[end_of_last(s, c, j) - 1] == c,
        forall|k: int| end_of_last(s, c, j) <= k < j ==> #[trigger] s[k] != c,
    decreases j,
{
    if 0 < j && s[j - 1] != c {
        lemma_end_of_last_bounds(s, c, j - 1);
    }
}

/// A trimmed text neither starts nor ends with white space.
pub proof fn lemma_trimmed_ends(s: Seq<char>)
    ensures
        trimmed(s).len() <= s.len(),
        trimmed(s).len() > 0 ==> !is_whitespace(trimmed(s)[0]) && !is_whitespace(trimmed(s).last()),
{
    lemma_first_non_space_bounds(s, 0);
    let a = first_non_space(s, 0);
    lemma_trimmed_end_bounds(s, a, s.len() as int);
}

/// A text that neither starts nor ends with white space is its own trimming.
pub proof fn lemma_trimmed_fixed(s: Seq<char>)
    requires
        s.len() > 0 ==> !is_whitespace(s[0]) && !is_whitespace(s.last()),
    ensures
        trimmed(s) == s,
{
    if s.len() > 0 {
        assert(first_non_space(s, 0) == 0);
        assert(trimmed_end(s, 0, s.len() as int) == s.len());
        assert(s.subrange(0, s.len() as int) =~= s);
    } else {
        assert(s.subrange(0, 0) =~= s);
    }
}

/// Whether `c` is white space.
pub fn is_space(c: char) -> (b: bool)
    ensures
        b == is_whitespace(c),
{
    let n: u32 = c as u32;
    (0x09 <= n && n <= 0x0D) || n == 0x20 || n == 0x85 || n == 0xA0 || n == 0x1680 || (0x2000 <= n
        && n <= 0x200A) || n == 0x2028 || n == 0x2029 || n == 0x202F || n == 0x205F || n == 0x3000
}

/// Trimming a trimmed text changes nothing.
pub proof fn lemma_trimmed_twice(s: Seq<char>)
    ensures
        trimmed(trimmed(s)) == trimmed(s),
{
    lemma_trimmed_ends(s);
    lemma_trimmed_fixed(trimmed(s));
}

/// The slice without its leading and trailing white space.
pub fn trim(s: &[char]) -> (r: &[char])
    ensures
        r@ == trimmed(s@),
        trimmed(r@) == r@,
{
    proof {
        lemma_trimmed_twice(s@);
    }
    let n = s.len();
    let mut a: usize = 0;
    while a < n && is_space(s[a])
        invariant
            n == s@.len(),
            0 <= a <= n,
            first_non_space(s@, 0) == first_non_space(s@, a as int),
        decreases n - a,
    {
        a += 1;
    }
    let mut b: usize = n;
    while a < b && is_space(s[b - 1])
        invariant
            n == s@.len(),
            a <= b <= n,
            trimmed_end(s@, a as int, n as int) == trimmed_end(s@, a as int, b as int),
        decreases b - a,
    {
        b -= 1;
    }
    slice_subrange(s, a, b)
}

/// Index of the first `c` in `s`, if there is one.
pub fn find(s: &[char], c: char) -> (r: Option<usize>)
    ensures
        match r {
            Some(k) => k < s@.len() && k == index_from(s@, c, 0),
            None => index_from(s@, c, 0) == s@.len(),
        },
{
    let n = s.len();
    let mut i: usize = 0;
    while i < n && s[i] != c
        invariant
            n == s@.len(),
            0 <= i <= n,
            index_from(s@, c, 0) == index_from(s@, c, i as int),
        decreases n - i,
    {
        i += 1;
    }
    if i < n {
        Some(i)
    } else {
        None
    }
}

/// Index of the last `c` in `s`, if there is one.
pub fn rfind(s: &[char], c: char) -> (r: Option<usize>)
    ensures
        match r {
            Some(k) => k < s@.len() && k + 1 == end_of_last(s@, c, s@.len() as int),
            None => end_of_last(s@, c, s@.len() as int) == 0,
        },
{
    let n = s.len();
    let mut j: usize = n;
    while 0 < j && s[j - 1] != c
        invariant
            n == s@.len(),
            0 <= j <= n,
            end_of_last(s@, c, n as int) == end_of_last(s@, c, j as int),
        decreases j,
    {
        j -= 1;
    }
    if 0 < j {
        Some(j - 1)
    } else {
        None
    }
}

/// A source line as the parser reads it: what stands before the first `;`,
/// trimmed.
pub fn clean(line: &[char]) -> (r: &[char])
    ensures
        r@ == cleaned(line@),
        trimmed(r@) == r@,
{
    let end = match find(line, ';') {
        Some(k) => k,
        None => line.len(),
    };
    trim(slice_subrange(line, 0, end))
}

/// The maximal runs of characters that hold no white space, in order.
pub fn split_whitespace<'a>(s: &'a [char]) -> (parts: Vec<&'a [char]>)
    ensures
        views(parts@) == tokens(s@),
{
    let n = s.len();
    let mut parts: Vec<&'a [char]> = Vec::new();
    let mut i: usize = 0;
    proof {
        assert(s@.skip(0) =~= s@);
        assert(views(parts@) + tokens(s@) =~= tokens(s@));
    }
    loop
        invariant
            n == s@.len(),
            0 <= i <= n,
            tokens(s@) == views(parts@) + tokens(s@.skip(i as int)),
        ensures
            views(parts@) == tokens(s@),
        decreases n - i,
    {
        let ghost rest = s@.skip(i as int);
        let mut a: usize = i;
        while a < n && is_space(s[a])
            invariant
                n == s@.len(),
                i <= a <= n,
                rest == s@.skip(i as int),
                first_non_space(rest, 0) == first_non_space(rest, a - i),
            decreases n - a,
        {
            a += 1;
        }
        let mut b: usize = a;
        while b < n && !is_space(s[b])
            invariant
                n == s@.len(),
                i <= a <= b <= n,
                rest == s@.skip(i as int),
                first_space(rest, a - i) == first_space(rest, b - i),
            decreases n - b,
        {
            b += 1;
        }
        if a < b {
            let word = slice_subrange(s, a, b);
            proof {
                assert(rest.subrange(a - i, b - i) =~= s@.subrange(a as int, b as int));
                assert(rest.skip(b - i) =~= s@.skip(b as int));
                assert(views(parts@.push(word)) =~= views(parts@) + seq![word@]);
                assert(views(parts@) + (seq![word@] + tokens(s@.skip(b as int))) =~= (views(parts@)
                    + seq![word@]) + tokens(s@.skip(b as int)));
            }
            parts.push(word);
            i = b;
        } else {
            proof {
                assert(tokens(rest) =~= Seq::<Seq<char>>::empty());
                assert(views(parts@) + tokens(rest) =~= views(parts@));
            }
            break;
        }
    }
    parts
}

/// The pieces of `s` between its occurrences of `sep`; always at least one.
pub fn split<'a>(s: &'a [char], sep: char) -> (parts: Vec<&'a [char]>)
    ensures
        views(parts@) == pieces(s@, sep),
{
    let n = s.len();
    let mut parts: Vec<&'a [char]> = Vec::new();
    let mut i: usize = 0;
    proof {
        assert(s@.skip(0) =~= s@);
        assert(views(parts@) + pieces(s@, sep) =~= pieces(s@, sep));
    }
    loop
        invariant_except_break
            0 <= i <= n,
            pieces(s@, sep) == views(parts@) + pieces(s@.skip(i as int), sep),
        invariant
            n == s@.len(),
        ensures
            views(parts@) == pieces(s@, sep),
        decreases n - i,
    {
        let ghost rest = s@.skip(i as int);
        let mut k: usize = i;
        while k < n && s[k] != sep
            invariant
                n == s@.len(),
                i <= k <= n,
                rest == s@.skip(i as int),
                index_from(rest, sep, 0) == index_from(rest, sep, k - i),
            decreases n - k,
        {
            k += 1;
        }
        let piece = slice_subrange(s, i, k);
        proof {
            assert(rest.take(k - i) =~= s@.subrange(i as int, k as int));
            assert(views(parts@.push(piece)) =~= views(parts@) + seq![piece@]);
        }
        parts.push(piece);
        if k < n {
            proof {
                assert(rest.skip(k - i + 1) =~= s@.skip(k + 1));
                assert(views(parts@) + (seq![piece@] + pieces(s@.skip(k + 1), sep)) =~= (views(
                    parts@,
                ) + seq![piece@]) + pieces(s@.skip(k + 1), sep));
            }
            i = k + 1;
        } else {
            proof {
                assert(rest.take(k - i) =~= rest);
            }
            break;
        }
    }
    parts
}

/// The lines of a text, each as a vector of its own.
pub fn split_lines(text: &[char]) -> (lines: Vec<Vec<char>>)
    ensures
        rows(lines@) == lines_of(text@),
{
    let n = text.len();
    let mut lines: Vec<Vec<char>> = Vec::new();
    let mut i: usize = 0;
    proof {
        assert(text@.skip(0) =~= text@);
        assert(rows(lines@) + lines_of(text@) =~= lines_of(text@));
    }
    while i < n
        invariant
            n == text@.len(),
            0 <= i <= n,
            lines_of(text@) == rows(lines@) + lines_of(text@.skip(i as int)),
        decreases n - i,
    {
        let ghost rest = text@.skip(i as int);
        let mut k: usize = i;
        while k < n && text[k] != '\n'
            invariant
                n == text@.len(),
                i <= k <= n,
                rest == text@.skip(i as int),
                index_from(rest, '\n', 0) == index_from(rest, '\n', k - i),
            decreases n - k,
        {
            k += 1;
        }
        let line = slice_to_vec(slice_subrange(text, i, k));
        let ghost before = lines@;
        lines.push(line);
        proof {
            assert(rest.take(k - i) =~= text@.subrange(i as int, k as int));
            assert(rows(lines@) =~= rows(before) + seq![line@]);
            if k < n {
                assert(rest.skip(k - i + 1) =~= text@.skip(k + 1));
                assert(rows(before) + (seq![line@] + lines_of(text@.skip(k + 1))) =~= (rows(before)
                    + seq![line@]) + lines_of(text@.skip(k + 1)));
            } else {
                assert(rest.take(k - i) =~= rest);
                assert(lines_of(text@.skip(n as int)) =~= Seq::<Seq<char>>::empty());
                assert(rows(lines@) + lines_of(text@.skip(n as int)) =~= rows(lines@));
            }
        }
        i = if k < n {
            k + 1
        } else {
            n
        };
    }
    proof {
        assert(rows(lines@) + lines_of(text@.skip(n as int)) =~= rows(lines@));
    }
    lines
}

/// Whether `s` starts with the characters of `prefix`.
pub fn starts_with(s: &[char], prefix: &str) -> (b: bool)
    ensures
        b == prefix@.is_prefix_of(s@),
{
    let n = s.len();
    let mut i: usize = 0;
    for c in it: prefix.chars()
        invariant
            n == s@.len(),
            it.seq() == prefix@,
            i == it.index(),
            i <= n,
            forall|k: int| 0 <= k < i ==> s@[k] == prefix@[k],
    {
        if i >= n || s[i] != c {
            return false;
        }
        i += 1;
    }
    assert(prefix@ =~= s@.subrange(0, prefix@.len() as int));
    true
}

/// What follows `prefix` in `s`, if `s` starts with it.
pub fn strip_prefix<'a>(s: &'a [char], prefix: &str) -> (r: Option<&'a [char]>)
    ensures
        match r {
            Some(rest) => prefix@.is_prefix_of(s@) && rest@ == s@.skip(prefix@.len() as int),
            None => !prefix@.is_prefix_of(s@),
        },
{
    if starts_with(s, prefix) {
        let k = prefix.unicode_len();
        Some(slice_subrange(s, k, s.len()))
    } else {
        None
    }
}

/// Whether `s` holds exactly the characters of `word`.
pub fn equals(s: &[char], word: &str) -> (b: bool)
    ensures
        b == (s@ == word@),
{
    let same_start = starts_with(s, word);
    let b = same_start && s.len() == word.unicode_len();
    proof {
        if b {
            assert(s@ =~= s@.subrange(0, word@.len() as int));
        }
    }
    b
}

/// The code point of `c`, or of its small letter where `c` is an ASCII capital
/// letter.
pub fn fold_ascii(c: char) -> (n: u32)
    ensures
        n == ascii_folded(c),
{
    if c >= 'A' && c <= 'Z' {
        c as u32 + 32
    } else {
        c as u32
    }
}

/// Whether `s` and `word` are equal up to the case of ASCII letters.
pub fn eq_ignore_ascii_case(s: &[char], word: &str) -> (b: bool)
    ensures
        b == same_ignoring_ascii_case(s@, word@),
{
    let n = s.len();
    let mut i: usize = 0;
    for c in it: word.chars()
        invariant
            n == s@.len(),
            it.seq() == word@,
            i == it.index(),
            i <= n,
            forall|k: int| 0 <= k < i ==> ascii_folded(#[trigger] s@[k]) == ascii_folded(word@[k]),
    {
        if i >= n {
            return false;
        }
        if fold_ascii(s[i]) != fold_ascii(c) {
            assert(word@[i as int] == c);
            return false;
        }
        i += 1;
    }
    i == n
}

/// The characters of a string.
pub fn to_chars(s: &str) -> (v: Vec<char>)
    ensures
        v@ == s@,
{
    let mut v: Vec<char> = Vec::new();
    for c in it: s.chars()
        invariant
            it.seq() == s@,
            v@ == s@.take(it.index() as int),
    {
        v.push(c);
    }
    v
}

/// `String::push` of std: afterwards the string holds what it held before,
/// followed by `c`.
#[verifier::external_body]
fn push_char(s: &mut String, c: char)
    ensures
        final(s)@ == old(s)@.push(c),
{
    s.push(c);
}

/// Appends the characters of `tail` to `s`.
pub fn append_chars(s: &mut String, tail: &[char])
    ensures
        final(s)@ == old(s)@ + tail@,
{
    let n = tail.len();
    let mut i: usize = 0;
    assert(s@ + tail@.take(0) =~= s@);
    while i < n
        invariant
            n == tail@.len(),
            0 <= i <= n,
            s@ == old(s)@ + tail@.take(i as int),
        decreases n - i,
    {
        push_char(s, tail[i]);
        assert(old(s)@ + tail@.take(i + 1) =~= (old(s)@ + tail@.take(i as int)).push(tail@[i as int]));
        i += 1;
    }
    assert(tail@.take(n as int) =~= tail@);
}

/// A string of the characters of `s`.
pub fn to_string(s: &[char]) -> (r: String)
    ensures
        r@ == s@,
{
    let mut r = String::new();
    append_chars(&mut r, s);
    assert(Seq::<char>::empty() + s@ =~= s@);
    r
}

} // verus!
