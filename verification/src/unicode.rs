//! Characters, whitespace and the segmentation of text into clusters.

use vstd::prelude::*;
use unicode_segmentation::UnicodeSegmentation;
use crate::utils::flattened;

verus! {

/// Whether `c` counts as whitespace: the value of `char::is_whitespace`.
pub uninterp spec fn is_whitespace_char(c: char) -> bool;

/// `char::is_whitespace` decides the Unicode `White_Space` property of a
/// character; the contract gives that answer the name `is_whitespace_char`.
pub assume_specification[ char::is_whitespace ](c: char) -> (b: bool)
    ensures
        b == is_whitespace_char(c),
;

/// `String::push` appends one character to the end of the string.
pub assume_specification[ String::push ](s: &mut String, c: char)
    ensures
        final(s)@ == old(s)@.push(c),
;

/// The characters of `s`, in order.
pub fn chars_of(s: &str) -> (out: Vec<char>)
    ensures
        out@ == s@,
{
    let mut out: Vec<char> = Vec::new();
    for c in it: s.chars()
        invariant
            out@ == it.seq().take(it.index() as int),
            it.seq() == s@,
    {
        out.push(c);
    }
    out
}

/// The string made of the characters of `chars`, in order.
pub fn string_of(chars: &Vec<char>) -> (out: String)
    ensures
        out@ == chars@,
{
    let mut out = String::new();
    let mut i: usize = 0;
    while i < chars.len()
        invariant
            i <= chars.len(),
            out@ == chars@.take(i as int),
        decreases chars.len() - i,
    {
        out.push(chars[i]);
        i += 1;
    }
    out
}


/// The texts that a vector of character vectors holds.
pub open spec fn texts(v: Seq<Vec<char>>) -> Seq<Seq<char>> {
    Seq::new(v.len(), |i: int| v[i]@)
}

/// What separates the fields of a line.
#[derive(Clone, Copy, Debug, PartialEq, Eq, Structural)]
pub enum Separator {
    /// A single tab character.
    Tab,
    /// Any single whitespace character.
    Whitespace,
}

impl Separator {
    /// Whether `c` separates two fields.
    pub open spec fn separates(self, c: char) -> bool {
        match self {
            Separator::Tab => c == '\t',
            Separator::Whitespace => is_whitespace_char(c),
        }
    }

    /// Decides `separates` for one character.
    pub fn matches(self, c: char) -> (b: bool)
        ensures
            b == self.separates(c),
    {
        match self {
            Separator::Tab => c == '\t',
            Separator::Whitespace => c.is_whitespace(),
        }
    }
}

/// The fields of `s`: every separator ends one field and starts the next, so
/// a text with `n` separators has `n + 1` fields, some of them possibly empty.
pub open spec fn fields(s: Seq<char>, sep: Separator) -> Seq<Seq<char>>
    decreases s.len(),
{
    if s.len() == 0 {
        seq![Seq::<char>::empty()]
    } else {
        let before = fields(s.drop_last(), sep);
        if sep.separates(s.last()) {
            before.push(Seq::<char>::empty())
        } else {
            before.drop_last().push(before.last().push(s.last()))
        }
    }
}

/// There is always at least one field.
pub proof fn lemma_fields_nonempty(s: Seq<char>, sep: Separator)
    ensures
        fields(s, sep).len() >= 1,
    decreases s.len(),
{
    if s.len() > 0 {
        lemma_fields_nonempty(s.drop_last(), sep);
    }
}

/// Splits `s` into its fields.
pub fn split_fields(s: &Vec<char>, sep: Separator) -> (out: Vec<Vec<char>>)
    ensures
        texts(out@) == fields(s@, sep),
{
    let mut out: Vec<Vec<char>> = Vec::new();
    let mut current: Vec<char> = Vec::new();
    let mut i: usize = 0;
    proof {
        assert(s@.take(0) =~= Seq::<char>::empty());
        assert(texts(out@).push(current@) =~= fields(s@.take(0), sep));
    }
    while i < s.len()
        invariant
            i <= s.len(),
            texts(out@).push(current@) == fields(s@.take(i as int), sep),
        decreases s.len() - i,
    {
        let c = s[i];
        proof {
            let next = s@.take(i as int + 1);
            assert(next.drop_last() =~= s@.take(i as int));
            assert(next.last() == c);
        }
        if sep.matches(c) {
            let ghost before = texts(out@);
            let ghost cur = current@;
            out.push(current);
            current = Vec::new();
            proof {
                assert(current@ =~= Seq::<char>::empty());
            }
            proof {
                assert(texts(out@) =~= before.push(cur));
            }
        } else {
            let ghost cur = current@;
            current.push(c);
            proof {
                let whole = texts(out@).push(cur);
                assert(whole.drop_last() =~= texts(out@));
                assert(texts(out@).push(current@) =~= whole.drop_last().push(
                    whole.last().push(c),
                ));
            }
        }
        i += 1;
    }
    let ghost before = texts(out@);
    let ghost cur = current@;
    out.push(current);
    proof {
        assert(s@.take(s.len() as int) =~= s@);
        assert(texts(out@) =~= before.push(cur));
    }
    out
}

/// `s` without its leading whitespace.
pub open spec fn trim_start(s: Seq<char>) -> Seq<char>
    decreases s.len(),
{
    if s.len() > 0 && is_whitespace_char(s[0]) {
        trim_start(s.drop_first())
    } else {
        s
    }
}

/// `s` without its trailing whitespace.
pub open spec fn trim_end(s: Seq<char>) -> Seq<char>
    decreases s.len(),
{
    if s.len() > 0 && is_whitespace_char(s.last()) {
        trim_end(s.drop_last())
    } else {
        s
    }
}

/// `s` without leading and trailing whitespace.
pub open spec fn trimmed(s: Seq<char>) -> Seq<char> {
    trim_end(trim_start(s))
}

proof fn lemma_trim_start_skips(s: Seq<char>, k: int)
    requires
        0 <= k <= s.len(),
        forall|j: int| 0 <= j < k ==> is_whitespace_char(s[j]),
    ensures
        trim_start(s) == trim_start(s.subrange(k, s.len() as int)),
    decreases k,
{
    if k > 0 {
        assert(s.drop_first().subrange(k - 1, s.len() - 1) =~= s.subrange(k, s.len() as int));
        lemma_trim_start_skips(s.drop_first(), k - 1);
    } else {
        assert(s.subrange(0, s.len() as int) =~= s);
    }
}

proof fn lemma_trim_end_skips(s: Seq<char>, k: int)
    requires
        0 <= k <= s.len(),
        forall|j: int| k <= j < s.len() ==> is_whitespace_char(s[j]),
    ensures
        trim_end(s) == trim_end(s.subrange(0, k)),
    decreases s.len() - k,
{
    if k < s.len() {
        assert(s.drop_last().subrange(0, k) =~= s.subrange(0, k));
        lemma_trim_end_skips(s.drop_last(), k);
    } else {
        assert(s.subrange(0, s.len() as int) =~= s);
    }
}

/// Removes leading and trailing whitespace.
pub fn trim(s: &Vec<char>) -> (out: Vec<char>)
    ensures
        out@ == trimmed(s@),
{
    let mut start: usize = 0;
    while start < s.len() && s[start].is_whitespace()
        invariant
            start <= s.len(),
            forall|j: int| 0 <= j < start ==> is_whitespace_char(s@[j]),
        decreases s.len() - start,
    {
        start += 1;
    }
    let mut end: usize = s.len();
    while end > start && s[end - 1].is_whitespace()
        invariant
            start <= end <= s.len(),
            forall|j: int| end <= j < s.len() ==> is_whitespace_char(s@[j]),
        decreases end,
    {
        end -= 1;
    }
    let mut out: Vec<char> = Vec::new();
    let mut i: usize = start;
    while i < end
        invariant
            start <= i <= end <= s.len(),
            out@ == s@.subrange(start as int, i as int),
        decreases end - i,
    {
        out.push(s[i]);
        i += 1;
    }
    proof {
        let tail = s@.subrange(start as int, s.len() as int);
        lemma_trim_start_skips(s@, start as int);
        assert(trim_start(tail) == tail) by {
            if tail.len() > 0 {
                assert(tail[0] == s@[start as int]);
            }
        }
        assert forall|j: int| end - start <= j < tail.len() implies is_whitespace_char(
            tail[j],
        ) by {
            assert(tail[j] == s@[start + j]);
        }
        lemma_trim_end_skips(tail, end - start);
        let body = tail.subrange(0, end - start);
        assert(body =~= s@.subrange(start as int, end as int));
        assert(trim_end(body) == body) by {
            if body.len() > 0 {
                assert(body.last() == s@[end - 1]);
            }
        }
    }
    out
}

/// The value of a decimal digit, if `c` is one.
pub open spec fn digit_value(c: char) -> Option<nat> {
    if '0' <= c <= '9' {
        Some((c as nat - '0' as nat) as nat)
    } else {
        None
    }
}

/// Whether every character of `s` is a decimal digit.
pub open spec fn all_digits(s: Seq<char>) -> bool {
    forall|i: int| 0 <= i < s.len() ==> (#[trigger] digit_value(s[i])) is Some
}

/// The number that the decimal digits of `s` write.
pub open spec fn decimal_value(s: Seq<char>) -> nat
    decreases s.len(),
{
    if s.len() == 0 {
        0
    } else {
        decimal_value(s.drop_last()) * 10 + (match digit_value(s.last()) {
            Some(d) => d,
            None => 0,
        })
    }
}

/// The digits of a number text: the text itself, or what follows one leading `+`.
pub open spec fn unsigned_digits(s: Seq<char>) -> Seq<char> {
    if s.len() > 0 && s[0] == '+' {
        s.drop_first()
    } else {
        s
    }
}

/// The byte that `s` writes in decimal: an optional `+`, then at least one
/// digit, with a value of at most 255. Anything else is no number.
pub open spec fn parsed_u8(s: Seq<char>) -> Option<u8> {
    let digits = unsigned_digits(s);
    if digits.len() > 0 && all_digits(digits) && decimal_value(digits) <= 255 {
        Some(decimal_value(digits) as u8)
    } else {
        None
    }
}

proof fn lemma_decimal_value_grows(s: Seq<char>, k: int)
    requires
        0 <= k <= s.len(),
    ensures
        decimal_value(s.take(k)) <= decimal_value(s),
    decreases s.len() - k,
{
    if k < s.len() {
        assert(s.drop_last().take(k) =~= s.take(k));
        lemma_decimal_value_grows(s.drop_last(), k);
    } else {
        assert(s.take(k) =~= s);
    }
}

/// Reads a byte written in decimal.
pub fn parse_u8(s: &Vec<char>) -> (out: Option<u8>)
    ensures
        out == parsed_u8(s@),
{
    let start: usize = if s.len() > 0 && s[0] == '+' {
        1
    } else {
        0
    };
    let ghost digits = unsigned_digits(s@);
    proof {
        assert(digits =~= s@.subrange(start as int, s.len() as int));
    }
    if start == s.len() {
        return None;
    }
    let mut value: u32 = 0;
    let mut i: usize = start;
    proof {
        assert(digits.take(0) =~= Seq::<char>::empty());
    }
    while i < s.len()
        invariant
            start <= i <= s.len(),
            digits == s@.subrange(start as int, s.len() as int),
            digits == unsigned_digits(s@),
            all_digits(digits.take(i - start)),
            value == decimal_value(digits.take(i - start)),
            value <= 255,
        decreases s.len() - i,
    {
        let c = s[i];
        let ghost next = digits.take(i - start + 1);
        proof {
            assert(next.drop_last() =~= digits.take(i - start));
            assert(next.last() == c);
        }
        if c < '0' || c > '9' {
            proof {
                assert(digits[i - start] == s@[i as int]);
                assert(digit_value(digits[i - start]) is None);
            }
            return None;
        }
        let d: u32 = c as u32 - '0' as u32;
        let grown: u32 = value * 10 + d;
        proof {
            assert(grown == decimal_value(next));
            assert forall|j: int| 0 <= j < next.len() implies (#[trigger] digit_value(
                next[j],
            )) is Some by {
                if j < next.len() - 1 {
                    assert(next[j] == digits.take(i - start)[j]);
                }
            }
        }
        if grown > 255 {
            proof {
                lemma_decimal_value_grows(digits, i - start + 1);
            }
            return None;
        }
        value = grown;
        i += 1;
    }
    proof {
        assert(digits.take(s.len() - start) =~= digits);
    }
    Some(value as u8)
}


/// Whether two vectors hold the same characters.
pub fn same_chars(a: &Vec<char>, b: &Vec<char>) -> (same: bool)
    ensures
        same == (a@ == b@),
{
    if a.len() != b.len() {
        return false;
    }
    let mut i: usize = 0;
    while i < a.len()
        invariant
            i <= a.len(),
            a.len() == b.len(),
            a@.take(i as int) == b@.take(i as int),
        decreases a.len() - i,
    {
        if a[i] != b[i] {
            return false;
        }
        proof {
            assert(a@.take(i as int + 1) =~= a@.take(i as int).push(a@[i as int]));
            assert(b@.take(i as int + 1) =~= b@.take(i as int).push(b@[i as int]));
        }
        i += 1;
    }
    proof {
        assert(a@.take(a.len() as int) =~= a@);
        assert(b@.take(b.len() as int) =~= b@);
    }
    true
}

/// The extended grapheme clusters of a text, in order: the value of
/// `UnicodeSegmentation::graphemes` with `is_extended` set.
pub uninterp spec fn grapheme_clusters(s: Seq<char>) -> Seq<Seq<char>>;

/// `UnicodeSegmentation::graphemes(s, true)` cuts a text at the boundaries
/// of its extended grapheme clusters. The contract names the clusters
/// `grapheme_clusters`, and says that they are not empty and make up the
/// text, one after the other: the iterator hands out the stretch from each
/// boundary to the next one, from the start of the text to its end.
#[verifier::external_body]
fn graphemes(s: &str) -> (out: Vec<Vec<char>>)
    ensures
        texts(out@) == grapheme_clusters(s@),
        flattened(texts(out@)) == s@,
        forall|i: int| 0 <= i < out@.len() ==> (#[trigger] out@[i])@.len() > 0,
{
    UnicodeSegmentation::graphemes(s, true).map(|g| g.chars().collect()).collect()
}

/// The characters of a text as it is read: its extended grapheme clusters,
/// or each of its code points by itself.
pub open spec fn segments(s: Seq<char>, use_graphemes: bool) -> Seq<Seq<char>> {
    if use_graphemes {
        grapheme_clusters(s)
    } else {
        Seq::new(s.len(), |i: int| seq![s[i]])
    }
}

proof fn lemma_singles_flattened(s: Seq<char>)
    ensures
        flattened(Seq::new(s.len(), |i: int| seq![s[i]])) == s,
    decreases s.len(),
{
    let singles = Seq::new(s.len(), |i: int| seq![s[i]]);
    if s.len() > 0 {
        let front = s.drop_last();
        lemma_singles_flattened(front);
        assert(singles.drop_last() =~= Seq::new(front.len(), |i: int| seq![front[i]]));
        assert(flattened(singles) =~= s);
    } else {
        assert(flattened(singles) =~= s);
    }
}

/// Cuts a text into its characters: none of them is empty, and one after
/// the other they make up the text.
pub fn characters(s: &str, use_graphemes: bool) -> (out: Vec<Vec<char>>)
    ensures
        texts(out@) == segments(s@, use_graphemes),
        flattened(texts(out@)) == s@,
        forall|i: int| 0 <= i < out@.len() ==> (#[trigger] out@[i])@.len() > 0,
{
    if use_graphemes {
        graphemes(s)
    } else {
        let chars = chars_of(s);
        let mut out: Vec<Vec<char>> = Vec::new();
        let mut i: usize = 0;
        while i < chars.len()
            invariant
                i <= chars.len(),
                out@.len() == i,
                forall|j: int| 0 <= j < i ==> (#[trigger] out@[j])@ == seq![chars@[j]],
            decreases chars.len() - i,
        {
            let mut single: Vec<char> = Vec::new();
            single.push(chars[i]);
            proof {
                assert(single@ =~= seq![chars@[i as int]]);
            }
            out.push(single);
            i += 1;
        }
        proof {
            assert(texts(out@) =~= segments(s@, use_graphemes));
            lemma_singles_flattened(s@);
        }
        out
    }
}

/// Whether a character is whitespace: every code point of it is.
pub open spec fn whitespace_only(c: Seq<char>) -> bool {
    forall|i: int| 0 <= i < c.len() ==> is_whitespace_char(#[trigger] c[i])
}

/// Decides `whitespace_only`.
pub fn character_is_whitespace(c: &Vec<char>) -> (b: bool)
    ensures
        b == whitespace_only(c@),
{
    let mut i: usize = 0;
    while i < c.len()
        invariant
            i <= c.len(),
            forall|j: int| 0 <= j < i ==> is_whitespace_char(#[trigger] c@[j]),
        decreases c.len() - i,
    {
        if !c[i].is_whitespace() {
            return false;
        }
        i += 1;
    }
    true
}

} // verus!
