//! Character-level text handling: characters of a string, white space, lines and tokens.

use vstd::prelude::*;

verus! {

/// The characters that count as white space: the Unicode `White_Space` set.
pub open spec fn is_space(c: char) -> bool {
    ||| '\u{9}' <= c <= '\u{D}'
    ||| c == ' '
    ||| c == '\u{85}'
    ||| c == '\u{A0}'
    ||| c == '\u{1680}'
    ||| '\u{2000}' <= c <= '\u{200A}'
    ||| c == '\u{2028}'
    ||| c == '\u{2029}'
    ||| c == '\u{202F}'
    ||| c == '\u{205F}'
    ||| c == '\u{3000}'
}

/// Tells whether `c` is white space.
pub fn is_whitespace(c: char) -> (b: bool)
    ensures
        b == is_space(c),
{
    ('\u{9}' <= c && c <= '\u{D}') || c == ' ' || c == '\u{85}' || c == '\u{A0}' || c
        == '\u{1680}' || ('\u{2000}' <= c && c <= '\u{200A}') || c == '\u{2028}' || c
        == '\u{2029}' || c == '\u{202F}' || c == '\u{205F}' || c == '\u{3000}'
}

/// The characters of `s`, in order.
pub fn chars_of(s: &str) -> (v: Vec<char>)
    ensures
        v@ == s@,
{
    let mut v: Vec<char> = Vec::new();
    for c in it: s.chars()
        invariant
            v@ == it.seq().take(it.index() as int),
            it.seq() == s@,
    {
        v.push(c);
    }
    v
}

/// A class of characters by which a text is cut into runs.
#[derive(Clone, Copy, Debug)]
pub enum CharClass {
    /// Every character but this one.
    Except(char),
    /// White space.
    Space,
    /// Everything but white space.
    Word,
}

impl CharClass {
    /// Whether `c` belongs to the class.
    pub open spec fn has(self, c: char) -> bool {
        match self {
            CharClass::Except(other) => c != other,
            CharClass::Space => is_space(c),
            CharClass::Word => !is_space(c),
        }
    }

    /// Tells whether `c` belongs to the class.
    pub fn contains(self, c: char) -> (b: bool)
        ensures
            b == self.has(c),
    {
        match self {
            CharClass::Except(other) => c != other,
            CharClass::Space => is_whitespace(c),
            CharClass::Word => !is_whitespace(c),
        }
    }
}

/// Where the longest run of `class` characters that starts at `i` ends:
/// the first position from `i` on that holds no such character, or the end of `s`.
pub open spec fn run_end(s: Seq<char>, class: CharClass, i: int) -> int
    decreases s.len() - i,
{
    if 0 <= i < s.len() && class.has(s[i]) {
        run_end(s, class, i + 1)
    } else {
        i
    }
}

/// `run_end` is the one position that closes the run.
pub proof fn lemma_run_end_is(s: Seq<char>, class: CharClass, i: int, e: int)
    requires
        0 <= i <= e <= s.len(),
        forall|j: int| i <= j < e ==> class.has(#[trigger] s[j]),
        e < s.len() ==> !class.has(s[e]),
    ensures
        run_end(s, class, i) == e,
    decreases e - i,
{
    if i < e {
        lemma_run_end_is(s, class, i + 1, e);
    }
}

/// What `run_end` returns closes the run.
pub proof fn lemma_run_end_closes(s: Seq<char>, class: CharClass, i: int)
    requires
        0 <= i <= s.len(),
    ensures
        i <= run_end(s, class, i) <= s.len(),
        forall|j: int| i <= j < run_end(s, class, i) ==> class.has(#[trigger] s[j]),
        run_end(s, class, i) < s.len() ==> !class.has(s[run_end(s, class, i)]),
    decreases s.len() - i,
{
    if i < s.len() && class.has(s[i]) {
        lemma_run_end_closes(s, class, i + 1);
    }
}

/// Finds where the run of `class` characters that starts at `from` ends.
pub fn scan(text: &Vec<char>, class: CharClass, from: usize) -> (end: usize)
    requires
        from <= text.len(),
    ensures
        end == run_end(text@, class, from as int),
        from <= end <= text.len(),
{
    let mut end: usize = from;
    while end < text.len() && class.contains(text[end])
        invariant
            from <= end <= text.len(),
            forall|j: int| from <= j < end ==> class.has(#[trigger] text@[j]),
        decreases text.len() - end,
    {
        end += 1;
    }
    proof {
        lemma_run_end_is(text@, class, from as int, end as int);
    }
    end
}

/// Copies the characters of `text` from `from` up to `to`.
pub fn copy_range(text: &Vec<char>, from: usize, to: usize) -> (part: Vec<char>)
    requires
        from <= to <= text.len(),
    ensures
        part@ == text@.subrange(from as int, to as int),
{
    let mut part: Vec<char> = Vec::new();
    let mut i: usize = from;
    while i < to
        invariant
            from <= i <= to <= text.len(),
            part@ == text@.subrange(from as int, i as int),
        decreases to - i,
    {
        part.push(text[i]);
        i += 1;
        assert(part@ =~= text@.subrange(from as int, i as int));
    }
    part
}

/// The texts that a vector of character vectors holds.
pub open spec fn texts(v: Seq<Vec<char>>) -> Seq<Seq<char>> {
    Seq::new(v.len(), |i: int| v[i]@)
}

/// A line without the carriage return that ended it, if one did.
pub open spec fn strip_cr(s: Seq<char>) -> Seq<char> {
    if s.len() > 0 && s.last() == '\r' {
        s.drop_last()
    } else {
        s
    }
}

/// The lines of `s` from position `i` on. A line ends at a line feed, or at a
/// carriage return directly before one; the last line needs no line feed,
/// and keeps a carriage return it may end in.
pub open spec fn lines_from(s: Seq<char>, i: int) -> Seq<Seq<char>>
    decreases s.len() - i,
{
    if 0 <= i < s.len() {
        let e = run_end(s, CharClass::Except('\n'), i);
        if e >= s.len() {
            seq![s.subrange(i, s.len() as int)]
        } else {
            proof {
                lemma_run_end_closes(s, CharClass::Except('\n'), i);
            }
            seq![strip_cr(s.subrange(i, e))] + lines_from(s, e + 1)
        }
    } else {
        Seq::empty()
    }
}

/// The lines of `s`.
pub open spec fn lines(s: Seq<char>) -> Seq<Seq<char>> {
    lines_from(s, 0)
}

/// Cuts a text into its lines.
pub fn split_lines(text: &Vec<char>) -> (out: Vec<Vec<char>>)
    ensures
        texts(out@) == lines(text@),
{
    let mut out: Vec<Vec<char>> = Vec::new();
    let mut pos: usize = 0;
    while pos < text.len()
        invariant
            pos <= text.len(),
            lines(text@) == texts(out@) + lines_from(text@, pos as int),
        decreases text.len() - pos,
    {
        let end = scan(text, CharClass::Except('\n'), pos);
        let ghost before = texts(out@);
        if end == text.len() {
            let line = copy_range(text, pos, end);
            out.push(line);
            assert(texts(out@) =~= before + seq![text@.subrange(pos as int, end as int)]);
            pos = end;
        } else {
            let mut stop: usize = end;
            if pos < end && text[end - 1] == '\r' {
                stop = end - 1;
            }
            let line = copy_range(text, pos, stop);
            assert(line@ =~= strip_cr(text@.subrange(pos as int, end as int)));
            out.push(line);
            assert(texts(out@) =~= before + seq![line@]);
            pos = end + 1;
        }
    }
    out
}

/// The tokens of `s` from position `i` on: the longest runs without white space.
pub open spec fn tokens_from(s: Seq<char>, i: int) -> Seq<Seq<char>>
    decreases s.len() - i,
{
    if 0 <= i < s.len() {
        let a = run_end(s, CharClass::Space, i);
        let e = run_end(s, CharClass::Word, a);
        if a >= s.len() {
            Seq::empty()
        } else {
            proof {
                lemma_run_end_closes(s, CharClass::Space, i);
                lemma_run_end_closes(s, CharClass::Word, a);
            }
            seq![s.subrange(a, e)] + tokens_from(s, e)
        }
    } else {
        Seq::empty()
    }
}

/// The tokens of `s`: what white space separates.
pub open spec fn tokens(s: Seq<char>) -> Seq<Seq<char>> {
    tokens_from(s, 0)
}

/// Cuts a line into its tokens.
pub fn split_tokens(line: &Vec<char>) -> (out: Vec<Vec<char>>)
    ensures
        texts(out@) == tokens(line@),
{
    let mut out: Vec<Vec<char>> = Vec::new();
    let mut pos: usize = 0;
    while pos < line.len()
        invariant
            pos <= line.len(),
            tokens(line@) == texts(out@) + tokens_from(line@, pos as int),
        decreases line.len() - pos,
    {
        let start = scan(line, CharClass::Space, pos);
        if start == line.len() {
            pos = start;
        } else {
            let end = scan(line, CharClass::Word, start);
            proof {
                lemma_run_end_closes(line@, CharClass::Space, pos as int);
                lemma_run_end_closes(line@, CharClass::Word, start as int);
            }
            let token = copy_range(line, start, end);
            let ghost before = texts(out@);
            out.push(token);
            assert(texts(out@) =~= before + seq![token@]);
            pos = end;
        }
    }
    out
}

/// Where the text ends once the white space at its end is cut off,
/// for a text that ends at `n`.
pub open spec fn trim_end(s: Seq<char>, n: int) -> int
    decreases n,
{
    if 0 < n <= s.len() && is_space(s[n - 1]) {
        trim_end(s, n - 1)
    } else {
        n
    }
}

/// `s` without the white space at its two ends.
pub open spec fn trim(s: Seq<char>) -> Seq<char> {
    let a = run_end(s, CharClass::Space, 0);
    let b = trim_end(s, s.len() as int);
    if a < b {
        s.subrange(a, b)
    } else {
        Seq::empty()
    }
}

/// A text of white space and nothing else.
pub open spec fn is_blank(s: Seq<char>) -> bool {
    forall|i: int| 0 <= i < s.len() ==> is_space(#[trigger] s[i])
}

/// Tells whether a line holds white space only.
pub fn blank(line: &Vec<char>) -> (b: bool)
    ensures
        b == is_blank(line@),
{
    let end = scan(line, CharClass::Space, 0);
    proof {
        lemma_run_end_closes(line@, CharClass::Space, 0);
    }
    end == line.len()
}

/// Cuts the white space off both ends of a line.
pub fn trimmed(line: &Vec<char>) -> (out: Vec<char>)
    ensures
        out@ == trim(line@),
{
    let start = scan(line, CharClass::Space, 0);
    let mut end: usize = line.len();
    while end > 0 && is_whitespace(line[end - 1])
        invariant
            end <= line.len(),
            trim_end(line@, line.len() as int) == trim_end(line@, end as int),
        decreases end,
    {
        end -= 1;
    }
    if start < end {
        copy_range(line, start, end)
    } else {
        Vec::new()
    }
}

/// Whether `s` ends in `suffix`.
pub open spec fn ends_with(s: Seq<char>, suffix: Seq<char>) -> bool {
    suffix.len() <= s.len() && s.subrange(s.len() - suffix.len(), s.len() as int) == suffix
}

/// `s` with every `suffix` at its end cut off, one after the other.
pub open spec fn without_suffix(s: Seq<char>, suffix: Seq<char>) -> Seq<char>
    decreases s.len(),
{
    if suffix.len() > 0 && ends_with(s, suffix) {
        without_suffix(s.take(s.len() - suffix.len()), suffix)
    } else {
        s
    }
}

/// Tells whether the first `len` characters of `text` end in `suffix`.
fn prefix_ends_with(text: &Vec<char>, len: usize, suffix: &Vec<char>) -> (b: bool)
    requires
        len <= text.len(),
    ensures
        b == ends_with(text@.take(len as int), suffix@),
{
    if suffix.len() > len {
        return false;
    }
    let base: usize = len - suffix.len();
    let ghost part = text@.take(len as int).subrange(base as int, len as int);
    let mut i: usize = 0;
    while i < suffix.len()
        invariant
            i <= suffix.len() <= len <= text.len(),
            base == len - suffix.len(),
            part == text@.take(len as int).subrange(base as int, len as int),
            forall|j: int| 0 <= j < i ==> part[j] == suffix@[j],
        decreases suffix.len() - i,
    {
        if text[base + i] != suffix[i] {
            assert(part[i as int] != suffix@[i as int]);
            return false;
        }
        i += 1;
    }
    assert(part =~= suffix@);
    true
}

/// Cuts every `suffix` off the end of `text`.
pub fn strip_suffix(text: &Vec<char>, suffix: &Vec<char>) -> (out: Vec<char>)
    ensures
        out@ == without_suffix(text@, suffix@),
{
    let mut len: usize = text.len();
    assert(text@.take(len as int) =~= text@);
    if suffix.len() > 0 {
        while prefix_ends_with(text, len, suffix)
            invariant
                len <= text.len(),
                suffix.len() > 0,
                without_suffix(text@, suffix@) == without_suffix(
                    text@.take(len as int),
                    suffix@,
                ),
            decreases len,
        {
            assert(text@.take(len as int).take(len - suffix.len()) =~= text@.take(
                len - suffix.len(),
            ));
            len -= suffix.len();
        }
    }
    let out = copy_range(text, 0, len);
    assert(out@ =~= text@.take(len as int));
    out
}

/// Tells whether two texts hold the same characters.
pub fn same_text(a: &Vec<char>, b: &Vec<char>) -> (same: bool)
    ensures
        same == (a@ == b@),
{
    if a.len() != b.len() {
        return false;
    }
    let mut i: usize = 0;
    while i < a.len()
        invariant
            i <= a.len() == b.len(),
            forall|j: int| 0 <= j < i ==> a@[j] == b@[j],
        decreases a.len() - i,
    {
        if a[i] != b[i] {
            return false;
        }
        i += 1;
    }
    assert(a@ =~= b@);
    true
}

/// The small letter of a capital letter from `A` to `Z`; any other character is
/// left as it is, a letter outside ASCII too.
pub open spec fn lower(c: char) -> char {
    if 'A' <= c <= 'Z' {
        ((c as u32 + 32) as u8) as char
    } else {
        c
    }
}

/// `s` with the small letter in place of each capital letter from `A` to `Z`.
pub open spec fn lowered(s: Seq<char>) -> Seq<char> {
    Seq::new(s.len(), |i: int| lower(s[i]))
}

/// Puts the small letter in place of each capital letter from `A` to `Z`.
pub fn to_lower(text: &Vec<char>) -> (out: Vec<char>)
    ensures
        out@ == lowered(text@),
{
    let mut out: Vec<char> = Vec::new();
    let mut i: usize = 0;
    while i < text.len()
        invariant
            i <= text.len(),
            out@.len() == i,
            forall|j: int| 0 <= j < i ==> out@[j] == lower(text@[j]),
        decreases text.len() - i,
    {
        let c = text[i];
        if 'A' <= c && c <= 'Z' {
            out.push(((c as u32 + 32) as u8) as char);
        } else {
            out.push(c);
        }
        i += 1;
    }
    assert(out@ =~= lowered(text@));
    out
}

/// Lowering a text that is lowered changes nothing.
pub proof fn lemma_lowered_twice(s: Seq<char>)
    ensures
        lowered(lowered(s)) == lowered(s),
{
    assert forall|i: int| 0 <= i < s.len() implies lower(lower(s[i])) == lower(s[i]) by {
        let c = s[i];
        if 'A' <= c <= 'Z' {
            let l = lower(c);
            assert('a' <= l <= 'z');
        }
    }
    assert(lowered(lowered(s)) =~= lowered(s));
}

/// Tells whether `text` holds the characters of `literal`.
pub fn is_text(text: &Vec<char>, literal: &str) -> (b: bool)
    ensures
        b == (text@ == literal@),
{
    let other = chars_of(literal);
    same_text(text, &other)
}

/// The pieces of `s` from position `i` on that `sep` separates. A text without
/// `sep` is one piece; a `sep` at the end is followed by an empty piece.
pub open spec fn pieces_from(s: Seq<char>, sep: char, i: int) -> Seq<Seq<char>>
    decreases s.len() - i,
{
    if 0 <= i <= s.len() {
        let e = run_end(s, CharClass::Except(sep), i);
        if e >= s.len() {
            seq![s.subrange(i, s.len() as int)]
        } else {
            proof {
                lemma_run_end_closes(s, CharClass::Except(sep), i);
            }
            seq![s.subrange(i, e)] + pieces_from(s, sep, e + 1)
        }
    } else {
        Seq::empty()
    }
}

/// The pieces of `s` that `sep` separates.
pub open spec fn pieces(s: Seq<char>, sep: char) -> Seq<Seq<char>> {
    pieces_from(s, sep, 0)
}

/// Cuts a text at each `sep`.
pub fn split_on(text: &Vec<char>, sep: char) -> (out: Vec<Vec<char>>)
    ensures
        texts(out@) == pieces(text@, sep),
{
    let mut out: Vec<Vec<char>> = Vec::new();
    let mut pos: usize = 0;
    let mut done = false;
    assert(texts(out@) + pieces_from(text@, sep, 0) =~= pieces(text@, sep));
    while !done
        invariant
            pos <= text.len(),
            !done ==> pieces(text@, sep) == texts(out@) + pieces_from(text@, sep, pos as int),
            done ==> pieces(text@, sep) == texts(out@),
        decreases text.len() - pos + if done { 0int } else { 1int },
    {
        let end = scan(text, CharClass::Except(sep), pos);
        let piece = copy_range(text, pos, end);
        let ghost before = texts(out@);
        out.push(piece);
        assert(texts(out@) =~= before + seq![piece@]);
        if end == text.len() {
            done = true;
        } else {
            pos = end + 1;
        }
    }
    out
}

/// `String::push` of the standard library: the string afterwards is the string
/// before with `ch` at its end.
pub assume_specification[ String::push ](s: &mut String, ch: char)
    ensures
        final(s)@ == old(s)@.push(ch),
;

/// Appends the characters of `text` to `out`.
pub fn push_chars(out: &mut String, text: &Vec<char>)
    ensures
        final(out)@ == old(out)@ + text@,
{
    let mut i: usize = 0;
    while i < text.len()
        invariant
            i <= text.len(),
            out@ == old(out)@ + text@.take(i as int),
        decreases text.len() - i,
    {
        out.push(text[i]);
        i += 1;
        assert(out@ =~= old(out)@ + text@.take(i as int));
    }
    assert(text@.take(text.len() as int) =~= text@);
}

/// The string that holds the characters of `text`.
pub fn string_of(text: &Vec<char>) -> (out: String)
    ensures
        out@ == text@,
{
    let mut out = String::new();
    push_chars(&mut out, text);
    assert(out@ =~= text@);
    out
}

/// The number of characters in all the texts together.
pub open spec fn total_len(ls: Seq<Seq<char>>) -> nat
    decreases ls.len(),
{
    if ls.len() == 0 {
        0
    } else {
        total_len(ls.drop_last()) + ls.last().len()
    }
}

/// Two lists of texts together hold the characters of both.
pub proof fn lemma_total_len_concat(a: Seq<Seq<char>>, b: Seq<Seq<char>>)
    ensures
        total_len(a + b) == total_len(a) + total_len(b),
    decreases b.len(),
{
    if b.len() == 0 {
        assert(a + b =~= a);
    } else {
        lemma_total_len_concat(a, b.drop_last());
        assert((a + b).drop_last() =~= a + b.drop_last());
    }
}

/// The texts after the first `k` hold no more characters than all of them.
pub proof fn lemma_total_len_skip(ls: Seq<Seq<char>>, k: int)
    requires
        0 <= k <= ls.len(),
    ensures
        total_len(ls.skip(k)) <= total_len(ls),
{
    lemma_total_len_concat(ls.take(k), ls.skip(k));
    assert(ls.take(k) + ls.skip(k) =~= ls);
}

/// Texts of one length hold that length times their number.
pub proof fn lemma_total_len_uniform(ls: Seq<Seq<char>>, n: nat)
    requires
        forall|i: int| 0 <= i < ls.len() ==> (#[trigger] ls[i]).len() == n,
    ensures
        total_len(ls) == ls.len() * n,
    decreases ls.len(),
{
    if ls.len() > 0 {
        lemma_total_len_uniform(ls.drop_last(), n);
        assert(ls.len() * n == (ls.len() - 1) * n + n) by (nonlinear_arith);
    } else {
        assert(ls.len() * n == 0) by (nonlinear_arith)
            requires
                ls.len() == 0,
        ;
    }
}

/// The lines of a text hold no more characters than the text.
pub proof fn lemma_lines_fit(s: Seq<char>, i: int)
    requires
        0 <= i <= s.len(),
    ensures
        total_len(lines_from(s, i)) <= s.len() - i,
    decreases s.len() - i,
{
    if i < s.len() {
        let e = run_end(s, CharClass::Except('\n'), i);
        lemma_run_end_closes(s, CharClass::Except('\n'), i);
        if e >= s.len() {
            let only = seq![s.subrange(i, s.len() as int)];
            assert(only.drop_last() =~= Seq::<Seq<char>>::empty());
            assert(total_len(only.drop_last()) == 0);
            assert(total_len(only) == only.last().len());
        } else {
            lemma_lines_fit(s, e + 1);
            let first = seq![strip_cr(s.subrange(i, e))];
            assert(first.drop_last() =~= Seq::<Seq<char>>::empty());
            assert(total_len(first.drop_last()) == 0);
            assert(total_len(first) == first.last().len());
            lemma_total_len_concat(first, lines_from(s, e + 1));
        }
    } else {
        assert(total_len(lines_from(s, i)) == 0);
    }
}

/// A text has no more lines than characters.
pub proof fn lemma_lines_count(s: Seq<char>, i: int)
    requires
        0 <= i <= s.len(),
    ensures
        lines_from(s, i).len() <= s.len() - i,
    decreases s.len() - i,
{
    if i < s.len() {
        let e = run_end(s, CharClass::Except('\n'), i);
        lemma_run_end_closes(s, CharClass::Except('\n'), i);
        if e < s.len() {
            lemma_lines_count(s, e + 1);
        }
    }
}

} // verus!
