//! Text as sequences of characters: splitting, trimming, numbers and joining.
//!
//! Kernel tables, journal records and command output are all plain text, and
//! every detector begins by taking such text apart. The functions here work on
//! `Vec<char>`, so that a position in the code is a position in the model.

use vstd::prelude::*;

verus! {

// -- Trusted string operations ------------------------------------------------

/// `String::push` appends the given character to the end of the string.
pub assume_specification[ String::push ](s: &mut String, c: char)
    ensures
        final(s)@ == old(s)@.push(c),
;

/// What `str::to_lowercase` gives for a text: the Unicode lowercase equivalent.
pub uninterp spec fn lowercased(s: Seq<char>) -> Seq<char>;

/// What `str::to_uppercase` gives for a text: the Unicode uppercase equivalent.
pub uninterp spec fn uppercased(s: Seq<char>) -> Seq<char>;

/// `str::to_lowercase` is a function of the text alone, and on a text made of
/// ASCII characters only it maps `A` to `Z` onto `a` to `z` and keeps the rest.
pub assume_specification[ str::to_lowercase ](s: &str) -> (out: String)
    ensures
        out@ == lowercased(s@),
        all_ascii(s@) ==> out@ == ascii_lowered(s@),
;

/// `str::to_uppercase` is a function of the text alone, and on a text made of
/// ASCII characters only it maps `a` to `z` onto `A` to `Z` and keeps the rest.
pub assume_specification[ str::to_uppercase ](s: &str) -> (out: String)
    ensures
        out@ == uppercased(s@),
        all_ascii(s@) ==> out@ == ascii_uppered(s@),
;

// -- Characters ---------------------------------------------------------------

/// The characters with the Unicode property `White_Space`.
pub open spec fn is_space(c: char) -> bool {
    let n = c as u32;
    ||| 0x9 <= n <= 0xd
    ||| n == 0x20
    ||| n == 0x85
    ||| n == 0xa0
    ||| n == 0x1680
    ||| 0x2000 <= n <= 0x200a
    ||| n == 0x2028
    ||| n == 0x2029
    ||| n == 0x202f
    ||| n == 0x205f
    ||| n == 0x3000
}

pub open spec fn is_digit(c: char) -> bool {
    '0' <= c <= '9'
}

pub open spec fn is_ascii(c: char) -> bool {
    c as u32 <= 0x7f
}

pub open spec fn ascii_lower(c: char) -> char {
    if 'A' <= c <= 'Z' {
        (c as u32 + 32) as char
    } else {
        c
    }
}

pub open spec fn ascii_upper(c: char) -> char {
    if 'a' <= c <= 'z' {
        (c as u32 - 32) as char
    } else {
        c
    }
}

pub open spec fn all_ascii(s: Seq<char>) -> bool {
    forall|i: int| 0 <= i < s.len() ==> is_ascii(#[trigger] s[i])
}

pub open spec fn ascii_lowered(s: Seq<char>) -> Seq<char> {
    s.map_values(|c: char| ascii_lower(c))
}

pub open spec fn ascii_uppered(s: Seq<char>) -> Seq<char> {
    s.map_values(|c: char| ascii_upper(c))
}

/// Two texts that differ at most in the case of ASCII letters.
pub open spec fn same_ignoring_case(a: Seq<char>, b: Seq<char>) -> bool {
    ascii_lowered(a) == ascii_lowered(b)
}

pub fn space(c: char) -> (b: bool)
    ensures
        b == is_space(c),
{
    let n: u32 = c as u32;
    (0x9 <= n && n <= 0xd) || n == 0x20 || n == 0x85 || n == 0xa0 || n == 0x1680 || (0x2000 <= n
        && n <= 0x200a) || n == 0x2028 || n == 0x2029 || n == 0x202f || n == 0x205f || n == 0x3000
}

pub fn digit(c: char) -> (b: bool)
    ensures
        b == is_digit(c),
{
    '0' <= c && c <= '9'
}

pub fn lower_char(c: char) -> (out: char)
    ensures
        out == ascii_lower(c),
{
    if 'A' <= c && c <= 'Z' {
        ((c as u8) + 32) as char
    } else {
        c
    }
}

// -- Strings and vectors of characters ----------------------------------------

pub fn to_chars(s: &str) -> (out: Vec<char>)
    ensures
        out@ == s@,
{
    let mut out: Vec<char> = Vec::new();
    for c in it: s.chars()
        invariant
            out@ == it.seq().take(it.index()),
            it.seq() == s@,
    {
        out.push(c);
    }
    out
}

pub fn to_text(v: &Vec<char>) -> (out: String)
    ensures
        out@ == v@,
{
    let mut out: String = String::new();
    let mut i: usize = 0;
    while i < v.len()
        invariant
            i <= v.len(),
            out@ == v@.take(i as int),
        decreases v.len() - i,
    {
        out.push(v[i]);
        i = i + 1;
        assert(v@.take(i as int) =~= v@.take(i - 1).push(v@[i - 1]));
    }
    assert(v@.take(v@.len() as int) =~= v@);
    out
}

pub fn copy_range(v: &Vec<char>, from: usize, to: usize) -> (out: Vec<char>)
    requires
        from <= to <= v.len(),
    ensures
        out@ == v@.subrange(from as int, to as int),
{
    let mut out: Vec<char> = Vec::new();
    let mut i: usize = from;
    while i < to
        invariant
            from <= i <= to <= v.len(),
            out@ == v@.subrange(from as int, i as int),
        decreases to - i,
    {
        out.push(v[i]);
        i = i + 1;
        assert(v@.subrange(from as int, i as int) =~= v@.subrange(from as int, i - 1).push(
            v@[i - 1],
        ));
    }
    out
}

pub fn same(a: &Vec<char>, b: &Vec<char>) -> (eq: bool)
    ensures
        eq == (a@ == b@),
{
    if a.len() != b.len() {
        return false;
    }
    let mut i: usize = 0;
    while i < a.len()
        invariant
            i <= a.len() == b.len(),
            forall|k: int| 0 <= k < i ==> a@[k] == b@[k],
        decreases a.len() - i,
    {
        if a[i] != b[i] {
            return false;
        }
        i = i + 1;
    }
    assert(a@ =~= b@);
    true
}

/// Whether the characters spell the given text.
pub fn spells(v: &Vec<char>, text: &str) -> (eq: bool)
    ensures
        eq == (v@ == text@),
{
    same(v, &to_chars(text))
}

pub fn text_eq(a: &str, b: &str) -> (eq: bool)
    ensures
        eq == (a@ == b@),
{
    same(&to_chars(a), &to_chars(b))
}

pub fn text_eq_ignoring_case(a: &str, b: &str) -> (eq: bool)
    ensures
        eq == same_ignoring_case(a@, b@),
{
    let x = to_chars(a);
    let y = to_chars(b);
    if x.len() != y.len() {
        assert(ascii_lowered(a@).len() != ascii_lowered(b@).len());
        return false;
    }
    let mut i: usize = 0;
    while i < x.len()
        invariant
            i <= x.len() == y.len(),
            x@ == a@,
            y@ == b@,
            forall|k: int| 0 <= k < i ==> ascii_lower(x@[k]) == ascii_lower(y@[k]),
        decreases x.len() - i,
    {
        if lower_char(x[i]) != lower_char(y[i]) {
            assert(ascii_lowered(a@)[i as int] != ascii_lowered(b@)[i as int]);
            return false;
        }
        i = i + 1;
    }
    assert(ascii_lowered(a@) =~= ascii_lowered(b@));
    true
}

/// The texts that a vector of character vectors spells.
pub open spec fn spelled(v: Seq<Vec<char>>) -> Seq<Seq<char>> {
    v.map_values(|w: Vec<char>| w@)
}

/// The texts of a vector of strings.
pub open spec fn texts(v: Seq<String>) -> Seq<Seq<char>> {
    v.map_values(|w: String| w@)
}

// -- Searching ----------------------------------------------------------------

/// The first position at or after `i` that holds `c`, or the length.
pub open spec fn next_index(s: Seq<char>, c: char, i: int) -> int
    decreases s.len() - i,
{
    if i >= s.len() {
        s.len() as int
    } else if s[i] == c {
        i
    } else {
        next_index(s, c, i + 1)
    }
}

/// The last position before `j` that holds `c`, or -1.
pub open spec fn last_index(s: Seq<char>, c: char, j: int) -> int
    decreases j,
{
    if j <= 0 {
        -1
    } else if s[j - 1] == c {
        j - 1
    } else {
        last_index(s, c, j - 1)
    }
}

pub proof fn lemma_next_index(s: Seq<char>, c: char, i: int)
    requires
        0 <= i <= s.len(),
    ensures
        i <= next_index(s, c, i) <= s.len(),
        next_index(s, c, i) < s.len() ==> s[next_index(s, c, i)] == c,
        forall|k: int| i <= k < next_index(s, c, i) ==> s[k] != c,
    decreases s.len() - i,
{
    if i < s.len() && s[i] != c {
        lemma_next_index(s, c, i + 1);
    }
}

pub proof fn lemma_last_index(s: Seq<char>, c: char, j: int)
    requires
        0 <= j <= s.len(),
    ensures
        -1 <= last_index(s, c, j) < j || j == 0,
        -1 <= last_index(s, c, j),
        last_index(s, c, j) >= 0 ==> s[last_index(s, c, j)] == c,
        forall|k: int| last_index(s, c, j) < k < j ==> s[k] != c,
    decreases j,
{
    if j > 0 && s[j - 1] != c {
        lemma_last_index(s, c, j - 1);
    }
}

pub fn find_char(v: &Vec<char>, c: char, from: usize) -> (at: usize)
    requires
        from <= v.len(),
    ensures
        at == next_index(v@, c, from as int),
        from <= at <= v.len(),
{
    let mut i: usize = from;
    while i < v.len() && v[i] != c
        invariant
            from <= i <= v.len(),
            next_index(v@, c, from as int) == next_index(v@, c, i as int),
        decreases v.len() - i,
    {
        i = i + 1;
    }
    i
}

/// The text before and after the first `c`, when there is one.
pub open spec fn split_once(s: Seq<char>, c: char) -> Option<(Seq<char>, Seq<char>)> {
    let at = next_index(s, c, 0);
    if at < s.len() {
        Some((s.take(at), s.skip(at + 1)))
    } else {
        None
    }
}

/// The text before and after the last `c`, when there is one.
pub open spec fn rsplit_once(s: Seq<char>, c: char) -> Option<(Seq<char>, Seq<char>)> {
    let at = last_index(s, c, s.len() as int);
    if at >= 0 {
        Some((s.take(at), s.skip(at + 1)))
    } else {
        None
    }
}

/// A split result holds the pair of texts that the model names.
pub open spec fn pair_is(
    got: Option<(Vec<char>, Vec<char>)>,
    want: Option<(Seq<char>, Seq<char>)>,
) -> bool {
    match got {
        Some(p) => want == Some((p.0@, p.1@)),
        None => want is None,
    }
}

pub fn cut_once(v: &Vec<char>, c: char) -> (out: Option<(Vec<char>, Vec<char>)>)
    ensures
        pair_is(out, split_once(v@, c)),
{
    let at: usize = find_char(v, c, 0);
    if at < v.len() {
        let head = copy_range(v, 0, at);
        let tail = copy_range(v, at + 1, v.len());
        assert(head@ =~= v@.take(at as int));
        assert(tail@ =~= v@.skip(at + 1));
        Some((head, tail))
    } else {
        None
    }
}

pub fn rcut_once(v: &Vec<char>, c: char) -> (out: Option<(Vec<char>, Vec<char>)>)
    ensures
        pair_is(out, rsplit_once(v@, c)),
{
    let mut j: usize = v.len();
    while j > 0
        invariant
            j <= v.len(),
            last_index(v@, c, v@.len() as int) == last_index(v@, c, j as int),
        decreases j,
    {
        if v[j - 1] == c {
            let head = copy_range(v, 0, j - 1);
            let tail = copy_range(v, j, v.len());
            assert(head@ =~= v@.take(j - 1));
            assert(tail@ =~= v@.skip(j as int));
            return Some((head, tail));
        }
        j = j - 1;
    }
    None
}

/// Whether `needle` stands in `s` at position `i`.
pub open spec fn stands_at(s: Seq<char>, needle: Seq<char>, i: int) -> bool {
    0 <= i && i + needle.len() <= s.len() && s.subrange(i, i + needle.len()) == needle
}

/// The first position at or after `i` where `needle` stands, or -1.
pub open spec fn find_from(s: Seq<char>, needle: Seq<char>, i: int) -> int
    decreases s.len() + 1 - i,
{
    if i > s.len() {
        -1
    } else if stands_at(s, needle, i) {
        i
    } else {
        find_from(s, needle, i + 1)
    }
}

pub open spec fn contains_text(s: Seq<char>, needle: Seq<char>) -> bool {
    exists|i: int| stands_at(s, needle, i)
}

pub open spec fn begins(s: Seq<char>, prefix: Seq<char>) -> bool {
    stands_at(s, prefix, 0)
}

/// What follows the prefix, when the text begins with it.
pub open spec fn strip_prefix(s: Seq<char>, prefix: Seq<char>) -> Option<Seq<char>> {
    if begins(s, prefix) {
        Some(s.skip(prefix.len() as int))
    } else {
        None
    }
}

pub fn stands(v: &Vec<char>, needle: &Vec<char>, at: usize) -> (b: bool)
    ensures
        b == stands_at(v@, needle@, at as int),
{
    if needle.len() > v.len() || at > v.len() - needle.len() {
        return false;
    }
    let mut i: usize = 0;
    while i < needle.len()
        invariant
            i <= needle.len() <= v.len(),
            at <= v.len() - needle.len(),
            forall|k: int| 0 <= k < i ==> v@[at + k] == needle@[k],
        decreases needle.len() - i,
    {
        if v[at + i] != needle[i] {
            assert(v@.subrange(at as int, at + needle@.len())[i as int] != needle@[i as int]);
            return false;
        }
        i = i + 1;
    }
    assert(v@.subrange(at as int, at + needle@.len()) =~= needle@);
    true
}

pub fn begins_with(v: &Vec<char>, prefix: &str) -> (b: bool)
    ensures
        b == begins(v@, prefix@),
{
    stands(v, &to_chars(prefix), 0)
}

pub fn after_prefix(v: &Vec<char>, prefix: &str) -> (out: Option<Vec<char>>)
    ensures
        match out {
            Some(rest) => strip_prefix(v@, prefix@) == Some(rest@),
            None => strip_prefix(v@, prefix@) is None,
        },
{
    let p = to_chars(prefix);
    if stands(v, &p, 0) {
        let rest = copy_range(v, p.len(), v.len());
        assert(rest@ =~= v@.skip(prefix@.len() as int));
        Some(rest)
    } else {
        None
    }
}

pub fn find_text(v: &Vec<char>, needle: &Vec<char>) -> (at: Option<usize>)
    ensures
        match at {
            Some(i) => find_from(v@, needle@, 0) == i && stands_at(v@, needle@, i as int),
            None => find_from(v@, needle@, 0) == -1 && !contains_text(v@, needle@),
        },
{
    let mut i: usize = 0;
    while i < v.len()
        invariant
            i <= v.len(),
            find_from(v@, needle@, 0) == find_from(v@, needle@, i as int),
            forall|k: int| 0 <= k < i ==> !stands_at(v@, needle@, k),
        decreases v.len() - i,
    {
        if stands(v, needle, i) {
            return Some(i);
        }
        i = i + 1;
    }
    if stands(v, needle, i) {
        return Some(i);
    }
    assert(find_from(v@, needle@, i + 1) == -1);
    None
}

pub fn holds_text(v: &Vec<char>, needle: &Vec<char>) -> (b: bool)
    ensures
        b == contains_text(v@, needle@),
{
    match find_text(v, needle) {
        Some(_) => true,
        None => false,
    }
}

// -- Splitting ----------------------------------------------------------------

/// The end of the word that begins at `i`: the next white space, or the length.
pub open spec fn word_end(s: Seq<char>, i: int) -> int
    decreases s.len() - i,
{
    if i >= s.len() || is_space(s[i]) {
        i
    } else {
        word_end(s, i + 1)
    }
}

pub proof fn lemma_word_end(s: Seq<char>, i: int)
    requires
        0 <= i <= s.len(),
    ensures
        i <= word_end(s, i) <= s.len(),
        i < s.len() && !is_space(s[i]) ==> i < word_end(s, i),
        forall|k: int| i <= k < word_end(s, i) ==> !is_space(#[trigger] s[k]),
    decreases s.len() - i,
{
    if i < s.len() && !is_space(s[i]) {
        lemma_word_end(s, i + 1);
    }
}

/// The maximal runs without white space from position `i` on, in order.
pub open spec fn words_from(s: Seq<char>, i: int) -> Seq<Seq<char>>
    decreases s.len() - i,
{
    if i < 0 || i >= s.len() {
        Seq::empty()
    } else if is_space(s[i]) {
        words_from(s, i + 1)
    } else {
        proof {
            lemma_word_end(s, i);
        }
        seq![s.subrange(i, word_end(s, i))] + words_from(s, word_end(s, i))
    }
}

/// The words of a text, white space apart.
pub open spec fn words(s: Seq<char>) -> Seq<Seq<char>> {
    words_from(s, 0)
}

pub fn split_words(v: &Vec<char>) -> (out: Vec<Vec<char>>)
    ensures
        spelled(out@) == words(v@),
{
    let mut out: Vec<Vec<char>> = Vec::new();
    let mut i: usize = 0;
    assert(spelled(out@) + words_from(v@, 0) =~= words(v@));
    while i < v.len()
        invariant
            i <= v.len(),
            spelled(out@) + words_from(v@, i as int) == words(v@),
        decreases v.len() - i,
    {
        if space(v[i]) {
            i = i + 1;
        } else {
            let start: usize = i;
            proof {
                lemma_word_end(v@, start as int);
            }
            while i < v.len() && !space(v[i])
                invariant
                    start <= i <= v.len(),
                    word_end(v@, start as int) == word_end(v@, i as int),
                decreases v.len() - i,
            {
                i = i + 1;
            }
            let word = copy_range(v, start, i);
            let ghost before = out@;
            out.push(word);
            assert(spelled(out@) =~= spelled(before).push(word@));
            assert(spelled(before) + (seq![word@] + words_from(v@, i as int)) =~= spelled(before).push(
                word@,
            ) + words_from(v@, i as int));
        }
    }
    assert(spelled(out@) + words_from(v@, i as int) =~= spelled(out@));
    out
}

/// The pieces of a text between the separators `c`, from position `i` on. There
/// is always at least one.
pub open spec fn pieces_from(s: Seq<char>, c: char, i: int) -> Seq<Seq<char>>
    decreases s.len() - i,
{
    if i < 0 || i > s.len() {
        Seq::empty()
    } else {
        proof {
            lemma_next_index(s, c, i);
        }
        let end = next_index(s, c, i);
        if end >= s.len() {
            seq![s.subrange(i, s.len() as int)]
        } else {
            seq![s.subrange(i, end)] + pieces_from(s, c, end + 1)
        }
    }
}

pub open spec fn pieces(s: Seq<char>, c: char) -> Seq<Seq<char>> {
    pieces_from(s, c, 0)
}

pub fn split_char(v: &Vec<char>, c: char) -> (out: Vec<Vec<char>>)
    ensures
        spelled(out@) == pieces(v@, c),
        out.len() > 0,
{
    let mut out: Vec<Vec<char>> = Vec::new();
    let mut i: usize = 0;
    assert(spelled(out@) + pieces_from(v@, c, 0) =~= pieces(v@, c));
    loop
        invariant
            i <= v.len(),
            spelled(out@) + pieces_from(v@, c, i as int) == pieces(v@, c),
        decreases v.len() - i,
    {
        let end: usize = find_char(v, c, i);
        let piece = copy_range(v, i, end);
        let ghost before = out@;
        out.push(piece);
        assert(spelled(out@) =~= spelled(before).push(piece@));
        if end >= v.len() {
            assert(spelled(before) + seq![piece@] =~= spelled(out@));
            return out;
        }
        assert(spelled(before) + (seq![piece@] + pieces_from(v@, c, end + 1)) =~= spelled(before).push(
            piece@,
        ) + pieces_from(v@, c, end + 1));
        i = end + 1;
    }
}

/// A line without the carriage return that stood before its line feed.
pub open spec fn without_cr(s: Seq<char>) -> Seq<char> {
    if s.len() > 0 && s.last() == '\r' {
        s.drop_last()
    } else {
        s
    }
}

/// The lines of a text from position `i` on. A line feed ends a line, so text
/// that ends in one has no empty last line.
pub open spec fn lines_from(s: Seq<char>, i: int) -> Seq<Seq<char>>
    decreases s.len() - i,
{
    if i < 0 || i >= s.len() {
        Seq::empty()
    } else {
        proof {
            lemma_next_index(s, '\n', i);
        }
        let end = next_index(s, '\n', i);
        if end >= s.len() {
            seq![s.subrange(i, s.len() as int)]
        } else {
            seq![without_cr(s.subrange(i, end))] + lines_from(s, end + 1)
        }
    }
}

pub open spec fn lines(s: Seq<char>) -> Seq<Seq<char>> {
    lines_from(s, 0)
}

pub fn split_lines(v: &Vec<char>) -> (out: Vec<Vec<char>>)
    ensures
        spelled(out@) == lines(v@),
{
    let mut out: Vec<Vec<char>> = Vec::new();
    let mut i: usize = 0;
    assert(spelled(out@) + lines_from(v@, 0) =~= lines(v@));
    while i < v.len()
        invariant
            i <= v.len(),
            spelled(out@) + lines_from(v@, i as int) == lines(v@),
        decreases v.len() - i,
    {
        let end: usize = find_char(v, '\n', i);
        let ghost before = out@;
        if end >= v.len() {
            let line = copy_range(v, i, end);
            out.push(line);
            assert(spelled(out@) =~= spelled(before).push(line@));
            assert(spelled(before) + seq![line@] =~= spelled(out@));
            return out;
        }
        let mut stop: usize = end;
        if end > i && v[end - 1] == '\r' {
            stop = end - 1;
        }
        let line = copy_range(v, i, stop);
        assert(line@ =~= without_cr(v@.subrange(i as int, end as int)));
        out.push(line);
        assert(spelled(out@) =~= spelled(before).push(line@));
        assert(spelled(before) + (seq![line@] + lines_from(v@, end + 1)) =~= spelled(before).push(
            line@,
        ) + lines_from(v@, end + 1));
        i = end + 1;
    }
    assert(spelled(out@) + lines_from(v@, i as int) =~= spelled(out@));
    out
}

// -- Trimming -----------------------------------------------------------------

/// The first position at or after `i` that is not white space, or the length.
pub open spec fn past_space(s: Seq<char>, i: int) -> int
    decreases s.len() - i,
{
    if i >= s.len() || !is_space(s[i]) {
        i
    } else {
        past_space(s, i + 1)
    }
}

/// The end of the text before `j` once trailing white space is left out.
pub open spec fn before_space(s: Seq<char>, j: int) -> int
    decreases j,
{
    if j <= 0 || !is_space(s[j - 1]) {
        j
    } else {
        before_space(s, j - 1)
    }
}

pub proof fn lemma_past_space(s: Seq<char>, i: int)
    requires
        0 <= i <= s.len(),
    ensures
        i <= past_space(s, i) <= s.len(),
        past_space(s, i) < s.len() ==> !is_space(s[past_space(s, i)]),
        forall|k: int| i <= k < past_space(s, i) ==> is_space(#[trigger] s[k]),
    decreases s.len() - i,
{
    if i < s.len() && is_space(s[i]) {
        lemma_past_space(s, i + 1);
    }
}

pub proof fn lemma_before_space(s: Seq<char>, j: int)
    requires
        0 <= j <= s.len(),
    ensures
        0 <= before_space(s, j) <= j,
        before_space(s, j) > 0 ==> !is_space(s[before_space(s, j) - 1]),
        forall|k: int| before_space(s, j) <= k < j ==> is_space(#[trigger] s[k]),
    decreases j,
{
    if j > 0 && is_space(s[j - 1]) {
        lemma_before_space(s, j - 1);
    }
}

pub open spec fn trim_end(s: Seq<char>) -> Seq<char> {
    s.take(before_space(s, s.len() as int))
}

pub open spec fn trim(s: Seq<char>) -> Seq<char> {
    trim_end(s.skip(past_space(s, 0)))
}

pub fn trimmed_end(v: &Vec<char>) -> (out: Vec<char>)
    ensures
        out@ == trim_end(v@),
{
    let mut j: usize = v.len();
    while j > 0 && space(v[j - 1])
        invariant
            j <= v.len(),
            before_space(v@, v@.len() as int) == before_space(v@, j as int),
        decreases j,
    {
        j = j - 1;
    }
    let out = copy_range(v, 0, j);
    assert(out@ =~= v@.take(j as int));
    out
}

pub fn trimmed(v: &Vec<char>) -> (out: Vec<char>)
    ensures
        out@ == trim(v@),
{
    let mut i: usize = 0;
    while i < v.len() && space(v[i])
        invariant
            i <= v.len(),
            past_space(v@, 0) == past_space(v@, i as int),
        decreases v.len() - i,
    {
        i = i + 1;
    }
    let rest = copy_range(v, i, v.len());
    assert(rest@ =~= v@.skip(i as int));
    trimmed_end(&rest)
}

// -- Numbers ------------------------------------------------------------------

pub open spec fn all_digits(s: Seq<char>) -> bool {
    forall|i: int| 0 <= i < s.len() ==> is_digit(#[trigger] s[i])
}

/// The number that decimal digits write.
pub open spec fn decimal(s: Seq<char>) -> nat
    decreases s.len(),
{
    if s.len() == 0 {
        0
    } else {
        decimal(s.drop_last()) * 10 + (s.last() as u32 - '0' as u32) as nat
    }
}

/// The number a text writes, if it is at most `max`: one optional `+`, then
/// digits and nothing else.
pub open spec fn unsigned(s: Seq<char>, max: nat) -> Option<nat> {
    let body = if s.len() > 0 && s[0] == '+' {
        s.skip(1)
    } else {
        s
    };
    if body.len() > 0 && all_digits(body) && decimal(body) <= max {
        Some(decimal(body))
    } else {
        None
    }
}

/// The number a text writes, if it lies in the range of `i64`: one optional
/// sign, then digits and nothing else.
pub open spec fn signed(s: Seq<char>) -> Option<int> {
    if s.len() > 0 && s[0] == '-' {
        match unsigned_digits(s.skip(1)) {
            Some(n) => if n <= 0x8000_0000_0000_0000 {
                Some(-(n as int))
            } else {
                None
            },
            None => None,
        }
    } else {
        match unsigned(s, i64::MAX as nat) {
            Some(n) => Some(n as int),
            None => None,
        }
    }
}

/// The number that a text of digits and nothing else writes.
pub open spec fn unsigned_digits(s: Seq<char>) -> Option<nat> {
    if s.len() > 0 && all_digits(s) {
        Some(decimal(s))
    } else {
        None
    }
}

proof fn lemma_decimal_grows(s: Seq<char>, n: int)
    requires
        0 <= n <= s.len(),
        all_digits(s),
    ensures
        decimal(s.take(n)) <= decimal(s),
    decreases s.len() - n,
{
    if n < s.len() {
        lemma_decimal_grows(s, n + 1);
        assert(s.take(n + 1).drop_last() =~= s.take(n));
        assert(is_digit(s[n]));
    } else {
        assert(s.take(n) =~= s);
    }
}

/// The value of the digits from position `from` on, if they are all digits, are
/// at least one, and the value is at most `max`.
fn read_digits(v: &Vec<char>, from: usize, max: u64) -> (out: Option<u64>)
    requires
        from <= v.len(),
    ensures
        ({
            let body = v@.skip(from as int);
            match out {
                Some(n) => body.len() > 0 && all_digits(body) && decimal(body) == n && n <= max,
                None => !(body.len() > 0 && all_digits(body) && decimal(body) <= max),
            }
        }),
{
    let ghost body = v@.skip(from as int);
    if from == v.len() {
        return None;
    }
    let mut acc: u64 = 0;
    let mut i: usize = from;
    assert(body.take(0) =~= Seq::<char>::empty());
    while i < v.len()
        invariant
            from <= i <= v.len(),
            body == v@.skip(from as int),
            acc <= max,
            acc == decimal(body.take(i - from)),
            forall|k: int| 0 <= k < i - from ==> is_digit(#[trigger] body[k]),
        decreases v.len() - i,
    {
        let c: char = v[i];
        assert(body[i - from] == c);
        if !digit(c) {
            return None;
        }
        let d: u32 = (c as u32) - ('0' as u32);
        let next: u128 = (acc as u128) * 10 + (d as u128);
        assert(body.take(i + 1 - from).drop_last() =~= body.take(i - from));
        assert(next == decimal(body.take(i + 1 - from)));
        if next > max as u128 {
            proof {
                if all_digits(body) {
                    lemma_decimal_grows(body, i + 1 - from);
                }
            }
            return None;
        }
        acc = next as u64;
        i = i + 1;
    }
    assert(body.take(i - from) =~= body);
    Some(acc)
}

pub fn read_unsigned(v: &Vec<char>, max: u64) -> (out: Option<u64>)
    ensures
        match out {
            Some(n) => unsigned(v@, max as nat) == Some(n as nat) && n <= max,
            None => unsigned(v@, max as nat) is None,
        },
{
    assert(v@.skip(0) =~= v@);
    if v.len() > 0 && v[0] == '+' {
        read_digits(v, 1, max)
    } else {
        read_digits(v, 0, max)
    }
}

pub fn read_signed(v: &Vec<char>) -> (out: Option<i64>)
    ensures
        match out {
            Some(n) => signed(v@) == Some(n as int),
            None => signed(v@) is None,
        },
{
    if v.len() > 0 && v[0] == '-' {
        match read_digits(v, 1, 0x8000_0000_0000_0000) {
            Some(n) => Some((-(n as i128)) as i64),
            None => None,
        }
    } else {
        match read_unsigned(v, 0x7fff_ffff_ffff_ffff) {
            Some(n) => Some(n as i64),
            None => None,
        }
    }
}

pub open spec fn is_hex(c: char) -> bool {
    is_digit(c) || 'a' <= c <= 'f' || 'A' <= c <= 'F'
}

pub open spec fn hex_value(c: char) -> nat {
    if is_digit(c) {
        (c as u32 - '0' as u32) as nat
    } else if 'a' <= c <= 'f' {
        (c as u32 - 'a' as u32 + 10) as nat
    } else {
        (c as u32 - 'A' as u32 + 10) as nat
    }
}

pub open spec fn all_hex(s: Seq<char>) -> bool {
    forall|i: int| 0 <= i < s.len() ==> is_hex(#[trigger] s[i])
}

/// The number that hexadecimal digits write.
pub open spec fn hexadecimal(s: Seq<char>) -> nat
    decreases s.len(),
{
    if s.len() == 0 {
        0
    } else {
        hexadecimal(s.drop_last()) * 16 + hex_value(s.last())
    }
}

/// The number a text writes in hexadecimal, if it is at most `max`: one optional
/// `+`, then digits and nothing else.
pub open spec fn unsigned_hex(s: Seq<char>, max: nat) -> Option<nat> {
    let body = if s.len() > 0 && s[0] == '+' {
        s.skip(1)
    } else {
        s
    };
    if body.len() > 0 && all_hex(body) && hexadecimal(body) <= max {
        Some(hexadecimal(body))
    } else {
        None
    }
}

pub fn hex_digit(c: char) -> (out: Option<u32>)
    ensures
        match out {
            Some(d) => is_hex(c) && d == hex_value(c) && d < 16,
            None => !is_hex(c),
        },
{
    if digit(c) {
        Some((c as u32) - ('0' as u32))
    } else if 'a' <= c && c <= 'f' {
        Some((c as u32) - ('a' as u32) + 10)
    } else if 'A' <= c && c <= 'F' {
        Some((c as u32) - ('A' as u32) + 10)
    } else {
        None
    }
}

proof fn lemma_hexadecimal_grows(s: Seq<char>, n: int)
    requires
        0 <= n <= s.len(),
    ensures
        hexadecimal(s.take(n)) <= hexadecimal(s),
    decreases s.len() - n,
{
    if n < s.len() {
        lemma_hexadecimal_grows(s, n + 1);
        assert(s.take(n + 1).drop_last() =~= s.take(n));
    } else {
        assert(s.take(n) =~= s);
    }
}

pub fn read_hex(v: &Vec<char>, max: u64) -> (out: Option<u64>)
    ensures
        match out {
            Some(n) => unsigned_hex(v@, max as nat) == Some(n as nat) && n <= max,
            None => unsigned_hex(v@, max as nat) is None,
        },
{
    let from: usize = if v.len() > 0 && v[0] == '+' {
        1
    } else {
        0
    };
    let ghost body = v@.skip(from as int);
    assert(v@.skip(0) =~= v@);
    if from == v.len() {
        return None;
    }
    let mut acc: u64 = 0;
    let mut i: usize = from;
    assert(body.take(0) =~= Seq::<char>::empty());
    while i < v.len()
        invariant
            from <= i <= v.len(),
            body == v@.skip(from as int),
            unsigned_hex(v@, max as nat) == (if body.len() > 0 && all_hex(body) && hexadecimal(body)
                <= max {
                Some(hexadecimal(body))
            } else {
                None
            }),
            acc <= max,
            acc == hexadecimal(body.take(i - from)),
            forall|k: int| 0 <= k < i - from ==> is_hex(#[trigger] body[k]),
        decreases v.len() - i,
    {
        assert(body[i - from] == v@[i as int]);
        match hex_digit(v[i]) {
            None => {
                return None;
            },
            Some(d) => {
                let next: u128 = (acc as u128) * 16 + (d as u128);
                assert(body.take(i + 1 - from).drop_last() =~= body.take(i - from));
                if next > max as u128 {
                    proof {
                        lemma_hexadecimal_grows(body, i + 1 - from);
                    }
                    return None;
                }
                acc = next as u64;
            },
        }
        i = i + 1;
    }
    assert(body.take(i - from) =~= body);
    Some(acc)
}

// -- Writing numbers ----------------------------------------------------------

pub open spec fn digit_char(d: int) -> char {
    (('0' as u32) + d) as char
}

/// A number in decimal, without leading zeros.
pub open spec fn dec(n: nat) -> Seq<char>
    decreases n,
{
    if n < 10 {
        seq![digit_char(n as int)]
    } else {
        dec(n / 10).push(digit_char((n % 10) as int))
    }
}

/// A signed number in decimal.
pub open spec fn dec_int(n: int) -> Seq<char> {
    if n < 0 {
        "-"@ + dec((-n) as nat)
    } else {
        dec(n as nat)
    }
}

pub fn char_of_digit(d: u8) -> (c: char)
    requires
        d < 10,
    ensures
        c == digit_char(d as int),
{
    ('0' as u8 + d) as char
}

pub fn push_dec(out: &mut String, n: u64)
    ensures
        final(out)@ == old(out)@ + dec(n as nat),
    decreases n,
{
    let ghost start = out@;
    if n >= 10 {
        push_dec(out, n / 10);
        out.push(char_of_digit((n % 10) as u8));
        assert(out@ =~= start + dec(n as nat));
    } else {
        out.push(char_of_digit(n as u8));
        assert(out@ =~= start + dec(n as nat));
    }
}

pub fn dec_text(n: u64) -> (out: String)
    ensures
        out@ == dec(n as nat),
{
    let mut out: String = String::new();
    push_dec(&mut out, n);
    assert(out@ =~= dec(n as nat));
    out
}

// -- Lists of texts -----------------------------------------------------------

/// Is the text among the given ones?
pub fn is_listed(list: &Vec<String>, s: &str) -> (b: bool)
    ensures
        b == texts(list@).contains(s@),
{
    let ghost all = texts(list@);
    let mut i: usize = 0;
    while i < list.len()
        invariant
            i <= list.len(),
            all == texts(list@),
            forall|k: int| 0 <= k < i ==> all[k] != s@,
        decreases list.len() - i,
    {
        assert(all[i as int] == list@[i as int]@);
        if text_eq(list[i].as_str(), s) {
            assert(all.contains(s@));
            return true;
        }
        i = i + 1;
    }
    false
}

/// The texts that runs of characters spell, as strings.
pub fn to_texts(v: &Vec<Vec<char>>) -> (out: Vec<String>)
    ensures
        texts(out@) == spelled(v@),
{
    let mut out: Vec<String> = Vec::new();
    let mut i: usize = 0;
    while i < v.len()
        invariant
            i <= v.len(),
            out.len() == i,
            forall|k: int| 0 <= k < i ==> (#[trigger] out@[k])@ == v@[k]@,
        decreases v.len() - i,
    {
        out.push(to_text(&v[i]));
        i = i + 1;
    }
    assert(texts(out@) =~= spelled(v@));
    out
}

// -- Joining and replacing ----------------------------------------------------

/// The texts in order, with the separator between each two.
pub open spec fn join(parts: Seq<Seq<char>>, sep: Seq<char>) -> Seq<char>
    decreases parts.len(),
{
    if parts.len() == 0 {
        Seq::empty()
    } else if parts.len() == 1 {
        parts[0]
    } else {
        join(parts.drop_last(), sep) + sep + parts.last()
    }
}

pub fn join_texts(parts: &Vec<String>, sep: &str) -> (out: String)
    ensures
        out@ == join(texts(parts@), sep@),
{
    let mut out: String = String::new();
    let mut i: usize = 0;
    let ghost all = texts(parts@);
    while i < parts.len()
        invariant
            i <= parts.len(),
            all == texts(parts@),
            out@ == join(all.take(i as int), sep@),
        decreases parts.len() - i,
    {
        let ghost before = out@;
        if i > 0 {
            out.append(sep);
        }
        out.append(parts[i].as_str());
        i = i + 1;
        assert(all.take(i as int).drop_last() =~= all.take(i - 1));
        assert(all.take(i as int).last() == parts@[i - 1]@);
        if i == 1 {
            assert(out@ =~= parts@[0]@);
        }
    }
    assert(all.take(i as int) =~= all);
    out
}

/// The text with every `c` replaced.
pub open spec fn replace_char(s: Seq<char>, c: char, with: Seq<char>) -> Seq<char>
    decreases s.len(),
{
    if s.len() == 0 {
        Seq::empty()
    } else if s.last() == c {
        replace_char(s.drop_last(), c, with) + with
    } else {
        replace_char(s.drop_last(), c, with).push(s.last())
    }
}

pub fn replaced(text: &str, c: char, with: &str) -> (out: String)
    ensures
        out@ == replace_char(text@, c, with@),
{
    let v = to_chars(text);
    let mut out: String = String::new();
    let mut i: usize = 0;
    while i < v.len()
        invariant
            i <= v.len(),
            v@ == text@,
            out@ == replace_char(v@.take(i as int), c, with@),
        decreases v.len() - i,
    {
        assert(v@.take(i + 1).drop_last() =~= v@.take(i as int));
        if v[i] == c {
            out.append(with);
        } else {
            out.push(v[i]);
        }
        i = i + 1;
    }
    assert(v@.take(i as int) =~= v@);
    out
}

// -- Order --------------------------------------------------------------------

/// The dictionary order of texts by character, from position `i` on.
pub open spec fn at_most_from(a: Seq<char>, b: Seq<char>, i: int) -> bool
    decreases a.len() - i,
{
    if i >= a.len() {
        true
    } else if i >= b.len() {
        false
    } else if a[i] != b[i] {
        a[i] < b[i]
    } else {
        at_most_from(a, b, i + 1)
    }
}

/// `a` comes before `b` in dictionary order, or is `b`.
pub open spec fn at_most(a: Seq<char>, b: Seq<char>) -> bool {
    at_most_from(a, b, 0)
}

pub proof fn lemma_at_most_total(a: Seq<char>, b: Seq<char>, i: int)
    requires
        0 <= i,
    ensures
        at_most_from(a, b, i) || at_most_from(b, a, i),
    decreases a.len() - i,
{
    if i < a.len() && i < b.len() && a[i] == b[i] {
        lemma_at_most_total(a, b, i + 1);
    }
}

pub proof fn lemma_at_most_transitive(a: Seq<char>, b: Seq<char>, c: Seq<char>, i: int)
    requires
        0 <= i,
        at_most_from(a, b, i),
        at_most_from(b, c, i),
    ensures
        at_most_from(a, c, i),
    decreases a.len() - i,
{
    if i < a.len() && i < b.len() && i < c.len() && a[i] == b[i] && b[i] == c[i] {
        lemma_at_most_transitive(a, b, c, i + 1);
    }
}

pub fn text_at_most(a: &str, b: &str) -> (r: bool)
    ensures
        r == at_most(a@, b@),
{
    let x = to_chars(a);
    let y = to_chars(b);
    let mut i: usize = 0;
    while i < x.len() && i < y.len() && x[i] == y[i]
        invariant
            i <= x.len(),
            i <= y.len(),
            x@ == a@,
            y@ == b@,
            at_most(a@, b@) == at_most_from(a@, b@, i as int),
        decreases x.len() - i,
    {
        i = i + 1;
    }
    if i >= x.len() {
        true
    } else if i >= y.len() {
        false
    } else {
        x[i] < y[i]
    }
}

pub open spec fn ordered(v: Seq<Seq<char>>) -> bool {
    forall|i: int, j: int| 0 <= i < j < v.len() ==> at_most(#[trigger] v[i], #[trigger] v[j])
}

/// `out` holds the texts of `v`, each as often, in dictionary order.
pub open spec fn sorted_from(out: Seq<Seq<char>>, v: Seq<Seq<char>>) -> bool {
    ordered(out) && out.to_multiset() == v.to_multiset()
}

fn insert_in_order(v: &mut Vec<String>, x: String)
    requires
        ordered(texts(old(v)@)),
    ensures
        ordered(texts(final(v)@)),
        texts(final(v)@).to_multiset() == texts(old(v)@).to_multiset().insert(x@),
{
    let mut i: usize = v.len();
    let ghost before = texts(v@);
    while i > 0 && !text_at_most(v[i - 1].as_str(), x.as_str())
        invariant
            i <= v.len(),
            before == texts(v@),
            forall|k: int| i <= k < before.len() ==> !at_most(#[trigger] before[k], x@),
        decreases i,
    {
        i = i - 1;
    }
    v.insert(i, x);
    let ghost after = texts(v@);
    proof {
        assert(after =~= before.insert(i as int, x@));
        vstd::seq_lib::to_multiset_insert(before, i as int, x@);
        assert forall|p: int, q: int| 0 <= p < q < after.len() implies at_most(
            #[trigger] after[p],
            #[trigger] after[q],
        ) by {
            if p < i && q == i {
                if p < i - 1 {
                    assert(at_most(before[p], before[i - 1]));
                    lemma_at_most_transitive(before[p], before[i - 1], x@, 0);
                }
            } else if p == i {
                assert(!at_most(before[q - 1], x@));
                lemma_at_most_total(before[q - 1], x@, 0);
            } else if p < i && q > i {
                assert(at_most(before[p], before[q - 1]));
            } else if p > i {
                assert(at_most(before[p - 1], before[q - 1]));
            } else {
                assert(at_most(before[p], before[q]));
            }
        }
    }
}

pub fn sort_texts(v: Vec<String>) -> (out: Vec<String>)
    ensures
        sorted_from(texts(out@), texts(v@)),
{
    let mut out: Vec<String> = Vec::new();
    let mut i: usize = 0;
    let ghost all = texts(v@);
    assert(texts(out@) =~= all.take(0));
    while i < v.len()
        invariant
            i <= v.len(),
            all == texts(v@),
            ordered(texts(out@)),
            texts(out@).to_multiset() == all.take(i as int).to_multiset(),
        decreases v.len() - i,
    {
        let ghost before = all.take(i as int);
        insert_in_order(&mut out, v[i].clone());
        assert(all.take(i + 1) =~= before.push(all[i as int]));
        proof {
            vstd::seq_lib::to_multiset_build(before, all[i as int]);
        }
        i = i + 1;
    }
    assert(all.take(i as int) =~= all);
    out
}

// -- Laws ---------------------------------------------------------------------

pub proof fn lemma_next_index_is(s: Seq<char>, c: char, i: int, end: int)
    requires
        0 <= i <= end <= s.len(),
        end < s.len() ==> s[end] == c,
        forall|k: int| i <= k < end ==> s[k] != c,
    ensures
        next_index(s, c, i) == end,
{
    lemma_next_index(s, c, i);
    let found = next_index(s, c, i);
    if found < end {
        assert(s[found] != c);
    } else if end < found {
        assert(s[end] != c);
    }
}

proof fn lemma_one_piece(s: Seq<char>, c: char)
    requires
        !s.contains(c),
    ensures
        pieces(s, c) == seq![s],
{
    assert forall|k: int| 0 <= k < s.len() implies s[k] != c by {
        assert(s.contains(s[k]));
    }
    lemma_next_index_is(s, c, 0, s.len() as int);
    assert(s.subrange(0, s.len() as int) =~= s);
}

proof fn lemma_last_piece(a: Seq<char>, c: char, b: Seq<char>, i: int)
    requires
        0 <= i <= a.len(),
        !b.contains(c),
    ensures
        pieces_from(a + seq![c] + b, c, i) == pieces_from(a, c, i).push(b),
    decreases a.len() - i,
{
    let s = a + seq![c] + b;
    let end = next_index(a, c, i);
    lemma_next_index(a, c, i);
    lemma_next_index_is(s, c, i, end);
    if end < a.len() {
        lemma_last_piece(a, c, b, end + 1);
        assert(s.subrange(i, end) =~= a.subrange(i, end));
        assert(pieces_from(s, c, i) =~= pieces_from(a, c, i).push(b));
    } else {
        assert forall|k: int| end < k < s.len() implies s[k] != c by {
            assert(b.contains(b[k - end - 1]));
        }
        lemma_next_index_is(s, c, end + 1, s.len() as int);
        assert(s.subrange(i, end) =~= a.subrange(i, end));
        assert(s.subrange(end + 1, s.len() as int) =~= b);
        assert(pieces_from(s, c, end + 1) =~= seq![b]);
        assert(pieces_from(s, c, i) =~= pieces_from(a, c, i).push(b));
    }
}

/// Splitting a text at a separator undoes joining texts that do not hold it.
pub proof fn splitting_undoes_joining(parts: Seq<Seq<char>>, c: char)
    requires
        parts.len() > 0,
        forall|i: int| 0 <= i < parts.len() ==> !(#[trigger] parts[i]).contains(c),
    ensures
        pieces(join(parts, seq![c]), c) == parts,
    decreases parts.len(),
{
    if parts.len() == 1 {
        lemma_one_piece(parts[0], c);
        assert(parts =~= seq![parts[0]]);
    } else {
        splitting_undoes_joining(parts.drop_last(), c);
        lemma_last_piece(join(parts.drop_last(), seq![c]), c, parts.last(), 0);
        assert(parts =~= parts.drop_last().push(parts.last()));
    }
}

/// What stands in a text stands in one of its pieces, separators aside.
pub proof fn a_piece_holds_every_character(s: Seq<char>, c: char, k: int)
    requires
        0 <= k < s.len(),
        s[k] != c,
    ensures
        exists|j: int| 0 <= j < pieces(s, c).len() && (#[trigger] pieces(s, c)[j]).contains(s[k]),
{
    lemma_piece_from(s, c, 0, k);
    assert(pieces(s, c) == pieces_from(s, c, 0));
    let j = choose|j: int|
        0 <= j < pieces_from(s, c, 0).len() && (#[trigger] pieces_from(s, c, 0)[j]).contains(s[k]);
    assert(pieces(s, c)[j].contains(s[k]));
}

proof fn lemma_piece_from(s: Seq<char>, c: char, i: int, k: int)
    requires
        0 <= i <= k < s.len(),
        s[k] != c,
    ensures
        exists|j: int|
            0 <= j < pieces_from(s, c, i).len() && (#[trigger] pieces_from(s, c, i)[j]).contains(
                s[k],
            ),
    decreases s.len() - i,
{
    lemma_next_index(s, c, i);
    let end = next_index(s, c, i);
    let all = pieces_from(s, c, i);
    if k < end {
        let first = s.subrange(
            i,
            if end >= s.len() {
                s.len() as int
            } else {
                end
            },
        );
        assert(all[0] == first);
        assert(first[k - i] == s[k]);
        assert(all[0].contains(s[k]));
    } else {
        lemma_piece_from(s, c, end + 1, k);
        let rest = pieces_from(s, c, end + 1);
        let j = choose|j: int| 0 <= j < rest.len() && (#[trigger] rest[j]).contains(s[k]);
        assert(all[j + 1] == rest[j]);
        assert(all[j + 1].contains(s[k]));
    }
}

/// A text splits at the first of its separators into what stands on either side.
pub proof fn a_split_gives_both_sides(head: Seq<char>, c: char, tail: Seq<char>)
    requires
        !head.contains(c),
    ensures
        split_once(head + seq![c] + tail, c) == Some((head, tail)),
{
    let s = head + seq![c] + tail;
    let at = head.len() as int;
    assert forall|k: int| 0 <= k < at implies s[k] != c by {
        assert(s[k] == head[k]);
        assert(head.contains(head[k]));
    }
    lemma_next_index_is(s, c, 0, at);
    assert(s.take(at) =~= head);
    assert(s.skip(at + 1) =~= tail);
}

proof fn lemma_word_end_before_space(s: Seq<char>, more: Seq<char>, i: int)
    requires
        0 <= i <= s.len(),
        more.len() > 0,
        is_space(more[0]),
    ensures
        word_end(s + more, i) == word_end(s, i),
    decreases s.len() - i,
{
    if i < s.len() {
        assert((s + more)[i] == s[i]);
        if !is_space(s[i]) {
            lemma_word_end_before_space(s, more, i + 1);
        }
    } else {
        assert((s + more)[i] == more[0]);
    }
}

proof fn lemma_word_end_at_the_end(s: Seq<char>, i: int)
    requires
        0 <= i <= s.len(),
        forall|k: int| i <= k < s.len() ==> !is_space(#[trigger] s[k]),
    ensures
        word_end(s, i) == s.len(),
    decreases s.len() - i,
{
    if i < s.len() {
        lemma_word_end_at_the_end(s, i + 1);
    }
}

proof fn lemma_words_and_one(s: Seq<char>, c: char, word: Seq<char>, i: int)
    requires
        0 <= i <= s.len(),
        is_space(c),
        is_word(word),
    ensures
        words_from(s + seq![c] + word, i) == words_from(s, i).push(word),
    decreases s.len() - i,
{
    let more = seq![c] + word;
    let all = s + seq![c] + word;
    assert(all =~= s + more);
    if i == s.len() {
        assert(all[i] == c);
        assert(words_from(all, i) == words_from(all, i + 1));
        assert forall|k: int| i + 1 <= k < all.len() implies !is_space(#[trigger] all[k]) by {
            assert(all[k] == word[k - i - 1]);
        }
        lemma_word_end_at_the_end(all, i + 1);
        assert(all[i + 1] == word[0]);
        assert(all.subrange(i + 1, all.len() as int) =~= word);
        assert(words_from(all, all.len() as int) =~= Seq::<Seq<char>>::empty());
        assert(words_from(all, i + 1) =~= seq![word]);
        assert(words_from(s, i) =~= Seq::<Seq<char>>::empty());
        assert(Seq::<Seq<char>>::empty().push(word) =~= seq![word]);
    } else {
        assert(all[i] == s[i]);
        if is_space(s[i]) {
            lemma_words_and_one(s, c, word, i + 1);
        } else {
            lemma_word_end(s, i);
            lemma_word_end_before_space(s, more, i);
            let end = word_end(s, i);
            lemma_words_and_one(s, c, word, end);
            assert(all.subrange(i, end) =~= s.subrange(i, end));
            assert(words_from(all, i) == seq![all.subrange(i, end)] + words_from(all, end));
            assert(words_from(s, i).push(word) =~= seq![s.subrange(i, end)] + words_from(
                s,
                end,
            ).push(word));
        }
    }
}

/// A text without white space that is not empty.
pub open spec fn is_word(word: Seq<char>) -> bool {
    word.len() > 0 && forall|k: int| 0 <= k < word.len() ==> !is_space(#[trigger] word[k])
}

/// One more word at the end of a text, after white space, is one more word.
pub proof fn a_word_at_the_end_is_one_more(s: Seq<char>, c: char, word: Seq<char>)
    requires
        is_space(c),
        is_word(word),
    ensures
        words(s + seq![c] + word) == words(s).push(word),
{
    lemma_words_and_one(s, c, word, 0);
}

/// A word on its own is the only word of its text.
pub proof fn a_word_is_its_only_word(word: Seq<char>)
    requires
        is_word(word),
    ensures
        words(word) == seq![word],
{
    lemma_word_end_at_the_end(word, 0);
    assert(word.subrange(0, word.len() as int) =~= word);
    assert(words_from(word, word.len() as int) =~= Seq::<Seq<char>>::empty());
    assert(words(word) =~= seq![word]);
}

proof fn lemma_words_are_words(s: Seq<char>, i: int)
    requires
        0 <= i <= s.len(),
    ensures
        forall|j: int| 0 <= j < words_from(s, i).len() ==> is_word(#[trigger] words_from(s, i)[j]),
    decreases s.len() - i,
{
    if i < s.len() {
        if is_space(s[i]) {
            lemma_words_are_words(s, i + 1);
            assert(words_from(s, i) == words_from(s, i + 1));
        } else {
            lemma_word_end(s, i);
            let end = word_end(s, i);
            let first = s.subrange(i, end);
            lemma_words_are_words(s, end);
            assert(is_word(first)) by {
                assert forall|k: int| 0 <= k < first.len() implies !is_space(
                    #[trigger] first[k],
                ) by {
                    assert(first[k] == s[i + k]);
                }
            }
            let all = words_from(s, i);
            assert(all == seq![first] + words_from(s, end));
            assert forall|j: int| 0 <= j < all.len() implies is_word(#[trigger] all[j]) by {
                if j == 0 {
                    assert(all[j] == first);
                } else {
                    assert(all[j] == words_from(s, end)[j - 1]);
                }
            }
        }
    }
}

/// The words of a text hold no white space, and none is empty.
pub proof fn words_hold_no_space(s: Seq<char>)
    ensures
        forall|j: int| 0 <= j < words(s).len() ==> is_word(#[trigger] words(s)[j]),
{
    lemma_words_are_words(s, 0);
}

/// Splitting a text at white space undoes joining words with spaces.
pub proof fn splitting_words_undoes_joining(parts: Seq<Seq<char>>)
    requires
        forall|j: int| 0 <= j < parts.len() ==> is_word(#[trigger] parts[j]),
    ensures
        words(join(parts, " "@)) == parts,
    decreases parts.len(),
{
    reveal_strlit(" ");
    assert(" "@ =~= seq![' ']);
    if parts.len() == 0 {
        assert(words(join(parts, " "@)) =~= parts);
    } else if parts.len() == 1 {
        a_word_is_its_only_word(parts[0]);
        assert(parts =~= seq![parts[0]]);
    } else {
        let before = parts.drop_last();
        assert forall|j: int| 0 <= j < before.len() implies is_word(#[trigger] before[j]) by {
            assert(is_word(parts[j]));
        }
        splitting_words_undoes_joining(before);
        a_word_at_the_end_is_one_more(join(before, " "@), ' ', parts.last());
        assert(parts =~= before.push(parts.last()));
    }
}

proof fn lemma_no_words(s: Seq<char>, i: int)
    requires
        0 <= i <= s.len(),
        forall|k: int| i <= k < s.len() ==> is_space(#[trigger] s[k]),
    ensures
        words_from(s, i).len() == 0,
    decreases s.len() - i,
{
    if i < s.len() {
        lemma_no_words(s, i + 1);
    }
}

proof fn lemma_words_before_space(s: Seq<char>, n: int, i: int)
    requires
        0 <= i <= n <= s.len(),
        forall|k: int| n <= k < s.len() ==> is_space(#[trigger] s[k]),
    ensures
        words_from(s.take(n), i) == words_from(s, i),
    decreases n - i,
{
    let head = s.take(n);
    if i == n {
        lemma_no_words(s, i);
        assert(words_from(head, i) =~= words_from(s, i));
    } else {
        assert(head[i] == s[i]);
        if is_space(s[i]) {
            lemma_words_before_space(s, n, i + 1);
        } else {
            let end = word_end(head, i);
            lemma_word_end(head, i);
            if n < s.len() {
                assert(s =~= head + s.skip(n));
                assert(s.skip(n)[0] == s[n]);
                lemma_word_end_before_space(head, s.skip(n), i);
            } else {
                assert(s =~= head);
            }
            lemma_words_before_space(s, n, end);
            assert(head.subrange(i, end) =~= s.subrange(i, end));
        }
    }
}

/// White space at the end of a text makes no difference to its words.
pub proof fn space_at_the_end_is_no_word(s: Seq<char>)
    ensures
        words(trim_end(s)) == words(s),
{
    lemma_before_space(s, s.len() as int);
    lemma_words_before_space(s, before_space(s, s.len() as int), 0);
}

/// A text that begins and ends with something other than white space.
pub open spec fn tight(s: Seq<char>) -> bool {
    s.len() > 0 ==> !is_space(s[0]) && !is_space(s[s.len() - 1])
}

/// There is nothing to trim from a text that was trimmed, nor from one that
/// neither begins nor ends with white space.
pub proof fn a_tight_text_stays_as_it_is(s: Seq<char>)
    ensures
        tight(trim(s)),
        tight(s) ==> trim(s) == s,
{
    let a = past_space(s, 0);
    let rest = s.skip(a);
    lemma_past_space(s, 0);
    lemma_before_space(rest, rest.len() as int);
    let b = before_space(rest, rest.len() as int);
    if a < s.len() {
        assert(rest[0] == s[a]);
        if b == 0 {
            assert(is_space(rest[0]));
        }
    }
    if tight(s) {
        if s.len() > 0 {
            if a > 0 {
                assert(is_space(s[0]));
            }
            assert(rest =~= s);
            if b < rest.len() {
                assert(is_space(rest[rest.len() - 1]));
            }
        }
        assert(trim(s) =~= s);
    }
}

/// A text is blank exactly where trimming leaves nothing of it.
pub proof fn only_blank_texts_trim_to_nothing(s: Seq<char>)
    ensures
        trim(s).len() == 0 <==> forall|k: int| 0 <= k < s.len() ==> is_space(#[trigger] s[k]),
{
    let a = past_space(s, 0);
    let rest = s.skip(a);
    lemma_past_space(s, 0);
    lemma_before_space(rest, rest.len() as int);
    let b = before_space(rest, rest.len() as int);
    if a < s.len() {
        assert(rest[0] == s[a]);
        if b == 0 {
            assert(is_space(rest[0]));
        }
    }
}

proof fn lemma_word_start(s: Seq<char>, n: int) -> (p: int)
    requires
        0 <= n <= s.len(),
    ensures
        0 <= p <= n,
        p > 0 ==> is_space(s[p - 1]),
        forall|k: int| p <= k < n ==> !is_space(#[trigger] s[k]),
    decreases n,
{
    if n > 0 && !is_space(s[n - 1]) {
        let p = lemma_word_start(s, n - 1);
        p
    } else {
        n
    }
}

/// A text that does not end in white space ends in its last word; what stands in
/// front of that ends in white space, and holds the other words.
pub proof fn a_text_ends_in_its_last_word(s: Seq<char>)
    requires
        s.len() > 0,
        !is_space(s[s.len() - 1]),
    ensures
        ({
            let w = words(s);
            let p = s.len() - w.last().len();
            &&& w.len() > 0
            &&& 0 <= p < s.len()
            &&& s.skip(p) == w.last()
            &&& p == 0 ==> w.len() == 1
            &&& p > 0 ==> is_space(s[p - 1]) && words(s.take(p - 1)) == w.drop_last()
        }),
{
    let n = s.len() as int;
    let p = lemma_word_start(s, n);
    let word = s.skip(p);
    if p == n {
        assert(is_space(s[n - 1]));
    }
    assert(is_word(word)) by {
        assert forall|k: int| 0 <= k < word.len() implies !is_space(#[trigger] word[k]) by {
            assert(word[k] == s[p + k]);
        }
    }
    if p == 0 {
        assert(word =~= s);
        a_word_is_its_only_word(s);
    } else {
        let head = s.take(p - 1);
        assert(s =~= head + seq![s[p - 1]] + word);
        a_word_at_the_end_is_one_more(head, s[p - 1], word);
        assert(words(s).drop_last() =~= words(head));
    }
}

/// A number written in decimal consists of digits, begins with a zero only where
/// it is zero, and reads back.
pub proof fn a_number_reads_back(n: nat)
    ensures
        dec(n).len() >= 1,
        all_digits(dec(n)),
        dec(n)[0] == '0' ==> n == 0,
        decimal(dec(n)) == n,
        forall|max: nat| n <= max ==> #[trigger] unsigned(dec(n), max) == Some(n),
    decreases n,
{
    reveal_with_fuel(decimal, 2);
    if n >= 10 {
        a_number_reads_back(n / 10);
        assert(dec(n).drop_last() =~= dec(n / 10));
        assert(dec(n).last() as u32 - '0' as u32 == n % 10);
        assert(dec(n)[0] == dec(n / 10)[0]);
        assert forall|i: int| 0 <= i < dec(n).len() implies is_digit(#[trigger] dec(n)[i]) by {
            if i < dec(n / 10).len() {
                assert(is_digit(dec(n / 10)[i]));
            }
        }
    } else {
        assert(dec(n).drop_last() =~= Seq::<char>::empty());
    }
    assert(is_digit(dec(n)[0]));
}

// -- Laws on characters and cuts ----------------------------------------------

/// White space is what Unicode calls so, and nothing else.
pub proof fn white_space_is_what_unicode_calls_so(c: char)
    ensures
        is_space(c) <==> (c == '\t' || c == '\n' || c == '\u{b}' || c == '\u{c}' || c == '\r' || c
            == ' ' || c == '\u{85}' || c == '\u{a0}' || c == '\u{1680}' || c == '\u{2000}' || c
            == '\u{2001}' || c == '\u{2002}' || c == '\u{2003}' || c == '\u{2004}' || c
            == '\u{2005}' || c == '\u{2006}' || c == '\u{2007}' || c == '\u{2008}' || c
            == '\u{2009}' || c == '\u{200a}' || c == '\u{2028}' || c == '\u{2029}' || c
            == '\u{202f}' || c == '\u{205f}' || c == '\u{3000}'),
{
}

/// Two characters are the same, or the two cases of one ASCII letter.
pub open spec fn same_letter(a: char, b: char) -> bool {
    ||| a == b
    ||| 'a' <= a <= 'z' && a as u32 == b as u32 + 32
    ||| 'a' <= b <= 'z' && b as u32 == a as u32 + 32
}

/// Texts are the same but for case exactly where they are as long and agree
/// letter by letter.
pub proof fn case_is_ignored_letter_by_letter(a: Seq<char>, b: Seq<char>)
    ensures
        same_ignoring_case(a, b) <==> a.len() == b.len() && forall|i: int|
            0 <= i < a.len() ==> same_letter(#[trigger] a[i], b[i]),
{
    let x = ascii_lowered(a);
    let y = ascii_lowered(b);
    if same_ignoring_case(a, b) {
        assert(x.len() == y.len());
        assert forall|i: int| 0 <= i < a.len() implies same_letter(#[trigger] a[i], b[i]) by {
            assert(x[i] == ascii_lower(a[i]));
            assert(y[i] == ascii_lower(b[i]));
        }
    }
    if a.len() == b.len() && forall|i: int|
        0 <= i < a.len() ==> same_letter(#[trigger] a[i], b[i]) {
        assert forall|i: int| 0 <= i < x.len() implies x[i] == y[i] by {
            assert(same_letter(a[i], b[i]));
        }
        assert(x =~= y);
    }
}

/// Lowering and raising the case of ASCII letters changes nothing else, and one
/// undoes the other on letters.
pub proof fn case_is_changed_on_letters_only(c: char)
    ensures
        'A' <= c <= 'Z' ==> 'a' <= ascii_lower(c) <= 'z' && ascii_upper(ascii_lower(c)) == c
            && ascii_lower(c) as u32 == c as u32 + 32,
        'a' <= c <= 'z' ==> 'A' <= ascii_upper(c) <= 'Z' && ascii_lower(ascii_upper(c)) == c,
        !('A' <= c <= 'Z') ==> ascii_lower(c) == c,
        !('a' <= c <= 'z') ==> ascii_upper(c) == c,
{
}

/// A text is cut at the first separator: what stands before it holds none, and
/// together with the separator and what follows it makes up the text. Only a
/// text without the separator cannot be cut.
pub proof fn a_cut_is_at_the_first_separator(s: Seq<char>, c: char)
    ensures
        match split_once(s, c) {
            Some((head, tail)) => s == head + seq![c] + tail && !head.contains(c),
            None => !s.contains(c),
        },
{
    lemma_next_index(s, c, 0);
    let at = next_index(s, c, 0);
    if at < s.len() {
        assert(s =~= s.take(at) + seq![c] + s.skip(at + 1));
        assert forall|k: int| 0 <= k < at implies s.take(at)[k] != c by {
            assert(s[k] != c);
        }
    }
}

/// A text is cut from the right at the last separator, likewise.
pub proof fn a_cut_from_the_right_is_at_the_last_separator(s: Seq<char>, c: char)
    ensures
        match rsplit_once(s, c) {
            Some((head, tail)) => s == head + seq![c] + tail && !tail.contains(c),
            None => !s.contains(c),
        },
{
    lemma_last_index(s, c, s.len() as int);
    let at = last_index(s, c, s.len() as int);
    if at >= 0 {
        let tail = s.skip(at + 1);
        assert(s =~= s.take(at) + seq![c] + tail);
        assert forall|k: int| 0 <= k < tail.len() implies tail[k] != c by {
            assert(tail[k] == s[at + 1 + k]);
            assert(s[at + 1 + k] != c);
        }
    } else {
        assert forall|k: int| 0 <= k < s.len() implies s[k] != c by {}
    }
}

/// A text splits from the right into what stands on either side of its last
/// separator.
pub proof fn a_split_from_the_right_gives_both_sides(head: Seq<char>, c: char, tail: Seq<char>)
    requires
        !tail.contains(c),
    ensures
        rsplit_once(head + seq![c] + tail, c) == Some((head, tail)),
{
    let s = head + seq![c] + tail;
    let at = last_index(s, c, s.len() as int);
    lemma_last_index(s, c, s.len() as int);
    assert(s[head.len() as int] == c);
    if at < head.len() {
        assert(s[head.len() as int] != c);
    } else if at > head.len() {
        assert(s[at] == tail[at - head.len() - 1]);
        assert(tail.contains(s[at]));
    }
    assert(s.take(at) =~= head);
    assert(s.skip(at + 1) =~= tail);
}

/// A text is found where it stands first, and not found only where it stands
/// nowhere.
pub proof fn a_text_is_found_where_it_stands_first(s: Seq<char>, needle: Seq<char>)
    ensures
        ({
            let at = find_from(s, needle, 0);
            &&& at >= 0 ==> stands_at(s, needle, at) && at + needle.len() <= s.len() && forall|k: int|
                0 <= k < needle.len() ==> s[at + k] == #[trigger] needle[k]
            &&& forall|i: int|
                0 <= i && (at < 0 || i < at) ==> !(#[trigger] stands_at(s, needle, i))
            &&& at < 0 <==> !contains_text(s, needle)
        }),
{
    lemma_found_first(s, needle, 0);
    let at = find_from(s, needle, 0);
    if at >= 0 {
        assert(stands_at(s, needle, at));
        assert forall|k: int| 0 <= k < needle.len() implies s[at + k] == #[trigger] needle[k] by {
            assert(s.subrange(at, at + needle.len())[k] == s[at + k]);
        }
    }
    if contains_text(s, needle) {
        let i = choose|i: int| stands_at(s, needle, i);
        assert(stands_at(s, needle, i));
    }
}

proof fn lemma_found_first(s: Seq<char>, needle: Seq<char>, i: int)
    requires
        0 <= i,
    ensures
        find_from(s, needle, i) < 0 || find_from(s, needle, i) >= i,
        find_from(s, needle, i) >= 0 ==> stands_at(s, needle, find_from(s, needle, i)),
        forall|k: int|
            i <= k && (find_from(s, needle, i) < 0 || k < find_from(s, needle, i))
                ==> !(#[trigger] stands_at(s, needle, k)),
    decreases s.len() + 1 - i,
{
    if i <= s.len() && !stands_at(s, needle, i) {
        lemma_found_first(s, needle, i + 1);
    }
}

/// A prefix is taken off exactly where the text begins with it, and what is left
/// is the rest.
pub proof fn a_prefix_is_taken_off_where_it_stands(s: Seq<char>, prefix: Seq<char>, rest: Seq<char>)
    ensures
        begins(prefix + rest, prefix),
        strip_prefix(prefix + rest, prefix) == Some(rest),
        match strip_prefix(s, prefix) {
            Some(left) => s == prefix + left,
            None => !begins(s, prefix) && (s.len() < prefix.len() || exists|k: int|
                0 <= k < prefix.len() && s[k] != prefix[k]),
        },
{
    let whole = prefix + rest;
    assert(whole.subrange(0, prefix.len() as int) =~= prefix);
    assert(whole.skip(prefix.len() as int) =~= rest);
    if begins(s, prefix) {
        assert forall|k: int| 0 <= k < prefix.len() implies s[k] == prefix[k] by {
            assert(s.subrange(0, prefix.len() as int)[k] == s[k]);
        }
        assert(s =~= prefix + s.skip(prefix.len() as int));
    } else if s.len() >= prefix.len() {
        if forall|k: int| 0 <= k < prefix.len() ==> s[k] == prefix[k] {
            assert(s.subrange(0, prefix.len() as int) =~= prefix);
        }
    }
}

proof fn lemma_words_behind(s: Seq<char>, c: char, i: int)
    requires
        0 <= i <= s.len(),
        is_space(c),
    ensures
        words_from(seq![c] + s, i + 1) == words_from(s, i),
    decreases s.len() - i,
{
    let all = seq![c] + s;
    if i < s.len() {
        assert(all[i + 1] == s[i]);
        if is_space(s[i]) {
            lemma_words_behind(s, c, i + 1);
        } else {
            lemma_word_end(s, i);
            lemma_word_end_behind(s, c, i);
            let end = word_end(s, i);
            lemma_words_behind(s, c, end);
            assert(all.subrange(i + 1, end + 1) =~= s.subrange(i, end));
        }
    }
}

proof fn lemma_word_end_behind(s: Seq<char>, c: char, i: int)
    requires
        0 <= i <= s.len(),
    ensures
        word_end(seq![c] + s, i + 1) == word_end(s, i) + 1,
    decreases s.len() - i,
{
    if i < s.len() {
        assert((seq![c] + s)[i + 1] == s[i]);
        if !is_space(s[i]) {
            lemma_word_end_behind(s, c, i + 1);
        }
    }
}

/// White space in front of a text makes no difference to its words.
pub proof fn space_in_front_is_no_word(s: Seq<char>, c: char)
    requires
        is_space(c),
    ensures
        words(seq![c] + s) == words(s),
{
    assert((seq![c] + s)[0] == c);
    lemma_words_behind(s, c, 0);
}

proof fn lemma_lines_behind(front: Seq<char>, s: Seq<char>, i: int)
    requires
        0 <= i <= s.len(),
    ensures
        lines_from(front + s, front.len() + i) == lines_from(s, i),
    decreases s.len() - i,
{
    let all = front + s;
    let n = front.len() as int;
    if i < s.len() {
        let end = next_index(s, '\n', i);
        lemma_next_index(s, '\n', i);
        assert forall|k: int| n + i <= k < n + end implies all[k] != '\n' by {
            assert(all[k] == s[k - n]);
        }
        if end < s.len() {
            assert(all[n + end] == s[end]);
        }
        lemma_next_index_is(all, '\n', n + i, n + end);
        assert(all.subrange(n + i, n + end) =~= s.subrange(i, end));
        if end < s.len() {
            lemma_lines_behind(front, s, end + 1);
        } else {
            assert(all.subrange(n + i, all.len() as int) =~= s.subrange(i, s.len() as int));
        }
    }
}

/// Lines end at line breaks, and a carriage return before the break belongs to
/// it. Text behind the last break is a line of its own, and where there is none
/// there is no further line.
pub proof fn lines_end_at_line_breaks(line: Seq<char>, rest: Seq<char>)
    requires
        !line.contains('\n'),
    ensures
        line.len() > 0 && line.last() != '\r' ==> lines(line + seq!['\n'] + rest) == seq![line]
            + lines(rest),
        line.len() == 0 ==> lines(line + seq!['\n'] + rest) == seq![line] + lines(rest),
        lines(line.push('\r') + seq!['\n'] + rest) == seq![line] + lines(rest),
        line.len() > 0 ==> lines(line) == seq![line],
        lines(Seq::empty()) == Seq::<Seq<char>>::empty(),
{
    lemma_first_line(line, rest);
    let returned = line.push('\r');
    assert forall|k: int| 0 <= k < returned.len() implies returned[k] != '\n' by {
        if k < line.len() {
            assert(line.contains(line[k]));
        }
    }
    lemma_first_line(returned, rest);
    assert(returned.drop_last() =~= line);
    if line.len() > 0 {
        assert forall|k: int| 0 <= k < line.len() implies line[k] != '\n' by {
            assert(line.contains(line[k]));
        }
        lemma_next_index_is(line, '\n', 0, line.len() as int);
        assert(line.subrange(0, line.len() as int) =~= line);
    }
}

proof fn lemma_first_line(line: Seq<char>, rest: Seq<char>)
    requires
        !line.contains('\n'),
    ensures
        lines(line + seq!['\n'] + rest) == seq![without_cr(line)] + lines(rest),
{
    let all = line + seq!['\n'] + rest;
    let n = line.len() as int;
    assert forall|k: int| 0 <= k < n implies all[k] != '\n' by {
        assert(all[k] == line[k]);
        assert(line.contains(line[k]));
    }
    assert(all[n] == '\n');
    lemma_next_index_is(all, '\n', 0, n);
    assert(all.subrange(0, n) =~= line);
    let front = line + seq!['\n'];
    assert(all =~= front + rest);
    lemma_lines_behind(front, rest, 0);
}

/// Trimming takes off white space and nothing else.
pub proof fn trimming_takes_only_white_space(s: Seq<char>)
    ensures
        exists|a: int, b: int|
            0 <= a <= b <= s.len() && trim(s) == #[trigger] s.subrange(a, b) && (forall|k: int|
                0 <= k < a || b <= k < s.len() ==> is_space(#[trigger] s[k])),
        exists|b: int|
            0 <= b <= s.len() && trim_end(s) == #[trigger] s.take(b) && (forall|k: int|
                b <= k < s.len() ==> is_space(#[trigger] s[k])) && (b > 0 ==> !is_space(s[b - 1])),
{
    let a = past_space(s, 0);
    let rest = s.skip(a);
    lemma_past_space(s, 0);
    lemma_before_space(rest, rest.len() as int);
    let b = a + before_space(rest, rest.len() as int);
    assert(trim(s) =~= s.subrange(a, b));
    assert forall|k: int| 0 <= k < a || b <= k < s.len() implies is_space(#[trigger] s[k]) by {
        if b <= k {
            assert(s[k] == rest[k - a]);
        }
    }
    lemma_before_space(s, s.len() as int);
    assert(trim_end(s) == s.take(before_space(s, s.len() as int)));
}

/// Only digits are a number, with a plus sign before them at most, and only one
/// that is not too large.
pub proof fn only_digits_are_a_number(s: Seq<char>, n: nat, max: nat)
    ensures
        unsigned(s, max) is Some ==> s.len() > 0 && (forall|i: int|
            0 <= i < s.len() ==> '0' <= #[trigger] s[i] <= '9' || (i == 0 && s[i] == '+' && s.len()
                > 1)),
        n > max ==> unsigned(dec(n), max) is None,
        n <= max ==> unsigned(dec(n), max) == Some(n) && unsigned(seq!['+'] + dec(n), max) == Some(
            n,
        ) && unsigned(seq!['0'] + dec(n), max) == Some(n),
        unsigned(s, max) is Some ==> unsigned(s, max).unwrap() <= max,
{
    a_number_reads_back(n);
    let plus = seq!['+'] + dec(n);
    let zero = seq!['0'] + dec(n);
    assert(plus.skip(1) =~= dec(n));
    lemma_leading_zero(dec(n));
    assert forall|i: int| 0 <= i < zero.len() implies is_digit(#[trigger] zero[i]) by {
        if i > 0 {
            assert(zero[i] == dec(n)[i - 1]);
        }
    }
    assert(is_digit(dec(n)[0]));
    if unsigned(s, max) is Some {
        assert forall|i: int| 0 <= i < s.len() implies '0' <= #[trigger] s[i] <= '9' || (i == 0
            && s[i] == '+' && s.len() > 1) by {
            if s[0] == '+' {
                if i > 0 {
                    assert(is_digit(s.skip(1)[i - 1]));
                }
            } else {
                assert(is_digit(s[i]));
            }
        }
    }
}

pub proof fn lemma_leading_zero(s: Seq<char>)
    ensures
        decimal(seq!['0'] + s) == decimal(s),
    decreases s.len(),
{
    let all = seq!['0'] + s;
    if s.len() == 0 {
        reveal_with_fuel(decimal, 2);
        assert(all.drop_last() =~= Seq::<char>::empty());
    } else {
        lemma_leading_zero(s.drop_last());
        assert(all.drop_last() =~= seq!['0'] + s.drop_last());
    }
}

/// The digits of a number are those of a tenth of it and the one that is left.
pub proof fn a_number_is_written_digit_by_digit(n: nat, d: nat)
    requires
        d < 10,
    ensures
        n > 0 ==> dec(10 * n + d) == dec(n) + dec(d),
        dec(0) == seq!['0'] && dec(1) == seq!['1'] && dec(2) == seq!['2'] && dec(3) == seq!['3']
            && dec(4) == seq!['4'] && dec(5) == seq!['5'] && dec(6) == seq!['6'] && dec(7) == seq![
            '7',
        ] && dec(8) == seq!['8'] && dec(9) == seq!['9'],
        dec_int(n as int) == dec(n),
        n > 0 ==> dec_int(-(n as int)) == seq!['-'] + dec(n),
{
    reveal_strlit("-");
    assert("-"@ =~= seq!['-']);
    if n > 0 {
        assert((10 * n + d) / 10 == n && (10 * n + d) % 10 == d);
        assert(dec(10 * n + d) =~= dec(n) + dec(d));
    }
}

/// A number with a sign reads as its sign says.
pub proof fn a_sign_is_read(n: nat)
    ensures
        n <= i64::MAX ==> signed(dec(n)) == Some(n as int) && signed(seq!['+'] + dec(n)) == Some(
            n as int,
        ),
        n <= 0x8000_0000_0000_0000 ==> signed(seq!['-'] + dec(n)) == Some(-(n as int)),
        n > i64::MAX ==> signed(dec(n)) is None,
{
    only_digits_are_a_number(dec(n), n, i64::MAX as nat);
    a_number_reads_back(n);
    assert((seq!['-'] + dec(n)).skip(1) =~= dec(n));
    assert(is_digit(dec(n)[0]));
}

/// A hexadecimal number is read digit by digit, in either case.
pub proof fn a_hexadecimal_number_is_read_digit_by_digit(s: Seq<char>, c: char, max: nat)
    ensures
        is_hex(c) ==> hexadecimal(s.push(c)) == 16 * hexadecimal(s) + hexadecimal(seq![c]),
        '0' <= c <= '9' ==> hexadecimal(seq![c]) == c as int - '0' as int,
        'a' <= c <= 'f' ==> hexadecimal(seq![c]) == 10 + (c as int - 'a' as int),
        'A' <= c <= 'F' ==> hexadecimal(seq![c]) == 10 + (c as int - 'A' as int),
        is_hex(c) <==> ('0' <= c <= '9' || 'a' <= c <= 'f' || 'A' <= c <= 'F'),
        unsigned_hex(s, max) is Some ==> s.len() > 0 && unsigned_hex(s, max).unwrap() <= max,
        s.len() > 0 && all_hex(s) && hexadecimal(s) <= max ==> unsigned_hex(s, max) == Some(
            hexadecimal(s),
        ),
        s.len() > 0 && all_hex(s) && hexadecimal(s) > max ==> unsigned_hex(s, max) is None,
{
    reveal_with_fuel(hexadecimal, 2);
    assert(s.push(c).drop_last() =~= s);
    assert(seq![c].drop_last() =~= Seq::<char>::empty());
    if s.len() > 0 && all_hex(s) {
        assert(is_hex(s[0]));
    }
}

/// Replacing a character goes through the text from one occurrence to the next,
/// and leaves the rest alone.
pub proof fn every_occurrence_is_replaced(
    a: Seq<char>,
    c: char,
    b: Seq<char>,
    with: Seq<char>,
)
    ensures
        replace_char(a + seq![c] + b, c, with) == replace_char(a, c, with) + with + replace_char(
            b,
            c,
            with,
        ),
        !a.contains(c) ==> replace_char(a, c, with) == a,
    decreases a.len() + b.len(),
{
    let all = a + seq![c] + b;
    if b.len() == 0 {
        assert(all.drop_last() =~= a);
        assert(replace_char(all, c, with) =~= replace_char(a, c, with) + with + replace_char(
            b,
            c,
            with,
        ));
    } else {
        every_occurrence_is_replaced(a, c, b.drop_last(), with);
        assert(all.drop_last() =~= a + seq![c] + b.drop_last());
        assert(all.last() == b.last());
        assert(replace_char(all, c, with) =~= replace_char(a, c, with) + with + replace_char(
            b,
            c,
            with,
        ));
    }
    lemma_nothing_replaced(a, c, with);
}

proof fn lemma_nothing_replaced(a: Seq<char>, c: char, with: Seq<char>)
    ensures
        !a.contains(c) ==> replace_char(a, c, with) == a,
    decreases a.len(),
{
    if !a.contains(c) && a.len() > 0 {
        assert(a.contains(a[a.len() - 1]));
        assert forall|k: int| 0 <= k < a.drop_last().len() implies a.drop_last()[k] != c by {
            assert(a.contains(a[k]));
        }
        lemma_nothing_replaced(a.drop_last(), c, with);
        assert(a =~= a.drop_last().push(a.last()));
    }
}

/// Texts are ordered by the first character in which they differ, and a text
/// comes before one that goes on.
pub proof fn the_first_difference_orders_texts(
    front: Seq<char>,
    x: char,
    y: char,
    a: Seq<char>,
    b: Seq<char>,
)
    ensures
        x < y ==> at_most(front + seq![x] + a, front + seq![y] + b) && !at_most(
            front + seq![y] + b,
            front + seq![x] + a,
        ),
        at_most(front, front + a),
        a.len() > 0 ==> !at_most(front + a, front),
{
    if x < y {
        lemma_ordered_behind(front + seq![x] + a, front + seq![y] + b, front.len() as int, 0);
        lemma_ordered_behind(front + seq![y] + b, front + seq![x] + a, front.len() as int, 0);
    }
    lemma_ordered_behind(front, front + a, front.len() as int, 0);
    lemma_ordered_behind(front + a, front, front.len() as int, 0);
}

proof fn lemma_ordered_behind(a: Seq<char>, b: Seq<char>, n: int, i: int)
    requires
        0 <= i <= n <= a.len(),
        n <= b.len(),
        forall|k: int| 0 <= k < n ==> a[k] == b[k],
    ensures
        at_most_from(a, b, i) == at_most_from(a, b, n),
    decreases n - i,
{
    if i < n {
        lemma_ordered_behind(a, b, n, i + 1);
    }
}

/// Joined texts stand one behind the other with the separator between them, and
/// before the first and behind the last there is none.
pub proof fn the_separator_stands_between_texts(
    parts: Seq<Seq<char>>,
    last: Seq<char>,
    sep: Seq<char>,
)
    ensures
        join(Seq::empty(), sep).len() == 0,
        join(seq![last], sep) == last,
        parts.len() > 0 ==> join(parts.push(last), sep) == join(parts, sep) + sep + last,
{
    assert(parts.push(last).drop_last() =~= parts);
}

/// A sorted list holds what it was sorted from, in dictionary order.
pub proof fn a_sorted_list_rises(out: Seq<Seq<char>>, v: Seq<Seq<char>>, i: int, j: int)
    requires
        sorted_from(out, v),
        0 <= i < j < out.len(),
    ensures
        at_most(out[i], out[j]),
        out.len() == v.len(),
        v.contains(out[i]),
{
    out.to_multiset_ensures();
    v.to_multiset_ensures();
    assert(out.contains(out[i]));
    assert(out.to_multiset().count(out[i]) > 0);
    assert(v.to_multiset().count(out[i]) > 0);
}

/// ASCII ends at U+007F.
pub proof fn ascii_is_the_first_half_of_a_byte(c: char, s: Seq<char>)
    ensures
        is_ascii(c) <==> (c as u32) < 128,
        all_ascii(s) <==> !(exists|i: int| 0 <= i < s.len() && (#[trigger] s[i]) as u32 >= 128),
        is_digit(c) <==> c == '0' || c == '1' || c == '2' || c == '3' || c == '4' || c == '5' || c
            == '6' || c == '7' || c == '8' || c == '9',
{
}

} // verus!
