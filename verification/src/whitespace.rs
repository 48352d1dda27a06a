//! Removing, spelling out and repairing the whitespace of a text.

use vstd::prelude::*;
use itertools::Itertools;
use crate::unicode::{
    character_is_whitespace, characters, same_chars, segments, string_of, texts, whitespace_only,
};
use crate::utils::flattened;

verus! {

/// `parts` one after the other, with `sep` between every two of them.
pub open spec fn joined(parts: Seq<Seq<char>>, sep: Seq<char>) -> Seq<char>
    decreases parts.len(),
{
    if parts.len() == 0 {
        Seq::empty()
    } else if parts.len() == 1 {
        parts[0]
    } else {
        joined(parts.drop_last(), sep) + sep + parts.last()
    }
}

/// `Itertools::join` writes the elements of an iterator into one string,
/// with the separator between every two of them and nothing around them;
/// the string is empty for no element. Each part is handed over as a string.
#[verifier::external_body]
fn join_parts(parts: &Vec<Vec<char>>, sep: &str) -> (out: String)
    ensures
        out@ == joined(texts(parts@), sep@),
{
    parts.iter().map(|part| part.iter().collect::<String>()).join(sep)
}

/// The characters of `chars` that are no whitespace, in their order.
pub open spec fn without_whitespace(chars: Seq<Seq<char>>) -> Seq<Seq<char>>
    decreases chars.len(),
{
    if chars.len() == 0 {
        Seq::empty()
    } else if whitespace_only(chars.last()) {
        without_whitespace(chars.drop_last())
    } else {
        without_whitespace(chars.drop_last()).push(chars.last())
    }
}

/// No whitespace is left among the characters that are kept.
pub proof fn lemma_without_whitespace(chars: Seq<Seq<char>>)
    ensures
        forall|i: int|
            0 <= i < without_whitespace(chars).len() ==> !whitespace_only(
                #[trigger] without_whitespace(chars)[i],
            ),
        without_whitespace(chars).len() <= chars.len(),
    decreases chars.len(),
{
    if chars.len() > 0 {
        lemma_without_whitespace(chars.drop_last());
    }
}

/// Joined without a separator, parts simply follow one another.
pub proof fn lemma_joined_plain(parts: Seq<Seq<char>>)
    ensures
        joined(parts, Seq::empty()) == flattened(parts),
    decreases parts.len(),
{
    if parts.len() > 1 {
        lemma_joined_plain(parts.drop_last());
        assert(joined(parts, Seq::empty()) =~= flattened(parts));
    } else if parts.len() == 1 {
        assert(parts.drop_last() =~= Seq::<Seq<char>>::empty());
        assert(flattened(parts.drop_last()) =~= Seq::<char>::empty());
        assert(joined(parts, Seq::empty()) =~= flattened(parts));
    }
}

/// Every code point of every part is a code point of the whole.
proof fn lemma_part_of_whole(parts: Seq<Seq<char>>, i: int, j: int)
    requires
        0 <= i < parts.len(),
        0 <= j < parts[i].len(),
    ensures
        flattened(parts).contains(parts[i][j]),
    decreases parts.len(),
{
    let whole = flattened(parts);
    let front = flattened(parts.drop_last());
    if i == parts.len() - 1 {
        assert(whole[front.len() + j] == parts[i][j]);
    } else {
        lemma_part_of_whole(parts.drop_last(), i, j);
        let k = choose|k: int| 0 <= k < front.len() && front[k] == parts.drop_last()[i][j];
        assert(whole[k] == parts[i][j]);
    }
}

/// Characters of a text without whitespace are all kept.
proof fn lemma_all_visible(chars: Seq<Seq<char>>)
    requires
        forall|i: int| 0 <= i < chars.len() ==> (#[trigger] chars[i]).len() > 0,
        forall|k: int|
            0 <= k < flattened(chars).len() ==> !crate::unicode::is_whitespace_char(
                #[trigger] flattened(chars)[k],
            ),
    ensures
        without_whitespace(chars) == chars,
    decreases chars.len(),
{
    if chars.len() > 0 {
        let front = chars.drop_last();
        assert forall|k: int| 0 <= k < flattened(front).len() implies !crate::unicode::is_whitespace_char(
            #[trigger] flattened(front)[k],
        ) by {
            assert(flattened(chars)[k] == flattened(front)[k]);
        }
        assert forall|i: int| 0 <= i < front.len() implies (#[trigger] front[i]).len() > 0 by {
            assert(front[i] == chars[i]);
        }
        lemma_all_visible(front);
        let last = chars.last();
        assert(last == chars[chars.len() - 1]);
        lemma_part_of_whole(chars, chars.len() - 1, 0);
        let k = choose|k: int| 0 <= k < flattened(chars).len() && flattened(chars)[k] == last[0];
        assert(!crate::unicode::is_whitespace_char(flattened(chars)[k]));
        assert(!whitespace_only(last));
        assert(without_whitespace(chars) =~= chars);
    } else {
        assert(without_whitespace(chars) =~= chars);
    }
}

/// The characters of `chars` that are no whitespace.
fn keep_visible(chars: Vec<Vec<char>>) -> (out: Vec<Vec<char>>)
    ensures
        texts(out@) == without_whitespace(texts(chars@)),
{
    let ghost all = chars@;
    let mut out: Vec<Vec<char>> = Vec::new();
    proof {
        assert(texts(all.take(0)) =~= Seq::<Seq<char>>::empty());
        assert(texts(out@) =~= Seq::<Seq<char>>::empty());
    }
    for c in it: chars
        invariant
            it.seq() == all,
            texts(out@) == without_whitespace(texts(all.take(it.index() as int))),
    {
        proof {
            let next = texts(all.take(it.index() as int + 1));
            assert(next.drop_last() =~= texts(all.take(it.index() as int)));
            assert(next.last() == c@);
        }
        if !character_is_whitespace(&c) {
            let ghost before = texts(out@);
            let ghost kept = c@;
            out.push(c);
            proof {
                assert(texts(out@) =~= before.push(kept));
            }
        }
    }
    proof {
        assert(all.take(all.len() as int) =~= all);
    }
    out
}

/// The text without its whitespace characters; a text that holds no
/// whitespace is left as it is.
pub fn remove(s: &str, use_graphemes: bool) -> (out: String)
    ensures
        out@ == joined(without_whitespace(segments(s@, use_graphemes)), Seq::empty()),
        (forall|k: int| 0 <= k < s@.len() ==> !crate::unicode::is_whitespace_char(#[trigger] s@[k]))
            ==> out@ == s@,
{
    let chars = characters(s, use_graphemes);
    proof {
        if forall|k: int|
            0 <= k < s@.len() ==> !crate::unicode::is_whitespace_char(#[trigger] s@[k]) {
            assert forall|i: int| 0 <= i < texts(chars@).len() implies (#[trigger] texts(
                chars@,
            )[i]).len() > 0 by {
                assert(texts(chars@)[i] == chars@[i]@);
            }
            lemma_all_visible(texts(chars@));
            lemma_joined_plain(texts(chars@));
        }
    }
    let visible = keep_visible(chars);
    proof {
        reveal_strlit("");
        assert(""@ =~= Seq::<char>::empty());
    }
    join_parts(&visible, "")
}

/// The text with exactly one space between every two of its characters
/// that are no whitespace, and no other whitespace.
pub fn full(s: &str, use_graphemes: bool) -> (out: String)
    ensures
        out@ == joined(without_whitespace(segments(s@, use_graphemes)), seq![' ']),
{
    let visible = keep_visible(characters(s, use_graphemes));
    proof {
        reveal_strlit(" ");
        assert(" "@ =~= seq![' ']);
    }
    join_parts(&visible, " ")
}

/// What is done to the whitespace at a character of a text.
#[derive(Debug, Clone, Copy, Hash, Ord, PartialOrd, Eq, PartialEq, Structural)]
pub enum WhitespaceOperation {
    /// The character stays as it is.
    Keep,
    /// A space is put in front of the character.
    Insert,
    /// The character, a whitespace, is taken out.
    Delete,
}

/// The operation that `name` names, by its letter or by its word.
pub open spec fn operation_named(name: Seq<char>) -> Option<WhitespaceOperation> {
    if name == "k"@ || name == "keep"@ {
        Some(WhitespaceOperation::Keep)
    } else if name == "i"@ || name == "insert"@ {
        Some(WhitespaceOperation::Insert)
    } else if name == "d"@ || name == "delete"@ {
        Some(WhitespaceOperation::Delete)
    } else {
        None
    }
}

/// The operation of the given number.
pub open spec fn operation_numbered(code: u8) -> Option<WhitespaceOperation> {
    if code == 0 {
        Some(WhitespaceOperation::Keep)
    } else if code == 1 {
        Some(WhitespaceOperation::Insert)
    } else if code == 2 {
        Some(WhitespaceOperation::Delete)
    } else {
        None
    }
}

impl WhitespaceOperation {
    /// The operation that `name` names; `None` if it names none.
    pub fn from_name(name: &str) -> (out: Option<Self>)
        ensures
            out == operation_named(name@),
    {
        if crate::data::same_text(name, "k") || crate::data::same_text(name, "keep") {
            Some(WhitespaceOperation::Keep)
        } else if crate::data::same_text(name, "i") || crate::data::same_text(name, "insert") {
            Some(WhitespaceOperation::Insert)
        } else if crate::data::same_text(name, "d") || crate::data::same_text(name, "delete") {
            Some(WhitespaceOperation::Delete)
        } else {
            None
        }
    }

    /// The operation of the given number; `None` if there is none.
    pub fn from_code(code: u8) -> (out: Option<Self>)
        ensures
            out == operation_numbered(code),
    {
        match code {
            0 => Some(WhitespaceOperation::Keep),
            1 => Some(WhitespaceOperation::Insert),
            2 => Some(WhitespaceOperation::Delete),
            _ => None,
        }
    }

    /// The number of the operation.
    pub fn code(self) -> (out: u8)
        ensures
            operation_numbered(out) == Some(self),
    {
        match self {
            WhitespaceOperation::Keep => 0,
            WhitespaceOperation::Insert => 1,
            WhitespaceOperation::Delete => 2,
        }
    }

    /// The letter of the operation.
    pub fn letter(self) -> (out: &'static str)
        ensures
            operation_named(out@) == Some(self),
            out@.len() == 1,
    {
        proof {
            reveal_strlit("k");
            reveal_strlit("i");
            reveal_strlit("d");
            reveal_strlit("keep");
            reveal_strlit("insert");
            reveal_strlit("delete");
            assert("k"@[0] == 'k' && "i"@[0] == 'i' && "d"@[0] == 'd');
            assert("keep"@.len() == 4 && "insert"@.len() == 6 && "delete"@.len() == 6);
        }
        match self {
            WhitespaceOperation::Keep => "k",
            WhitespaceOperation::Insert => "i",
            WhitespaceOperation::Delete => "d",
        }
    }

    /// The number of characters of the target text that the operation passes.
    pub open spec fn advance(self) -> nat {
        match self {
            WhitespaceOperation::Keep => 1,
            WhitespaceOperation::Insert => 2,
            WhitespaceOperation::Delete => 0,
        }
    }
}

/// Why the whitespace of a text cannot be worked on.
#[derive(Debug, Clone, Copy, PartialEq, Eq, Structural)]
pub enum WhitespaceError {
    /// The texts differ in more than whitespace, or their whitespace is not
    /// clean: at these positions of the two texts no operation leads on.
    Mismatch { from: usize, to: usize },
    /// There is not one operation for every character.
    OperationCount { operations: usize, characters: usize },
    /// No search could be made for the text.
    Pattern,
}

/// The operation at a character of the source text, opposite the character
/// `to` of the target text, if there is one left: the character is kept where
/// the two are the same; else a space is inserted where the target has
/// whitespace; else the character is deleted where it is whitespace; else
/// there is none.
pub open spec fn next_operation(from: Seq<char>, to: Option<Seq<char>>) -> Option<
    WhitespaceOperation,
> {
    if to == Some(from) {
        Some(WhitespaceOperation::Keep)
    } else if to is Some && whitespace_only(to->0) {
        Some(WhitespaceOperation::Insert)
    } else if whitespace_only(from) {
        Some(WhitespaceOperation::Delete)
    } else {
        None
    }
}

/// The character at position `j` of `chars`, if there is one.
pub open spec fn character_at(chars: Seq<Seq<char>>, j: nat) -> Option<Seq<char>> {
    if j < chars.len() {
        Some(chars[j as int])
    } else {
        None
    }
}

/// `j + k`, and at most `len`.
pub open spec fn capped(j: nat, k: nat, len: nat) -> nat {
    if j + k <= len {
        j + k
    } else {
        len
    }
}

/// The operations from position `i` of the source text on, when the
/// target text is read from position `j` on: one operation for every
/// character of the source text, each opposite the character at which the
/// operations before it have left the target text.
pub open spec fn operations_from(from: Seq<Seq<char>>, to: Seq<Seq<char>>, i: nat, j: nat) -> Result<
    Seq<WhitespaceOperation>,
    WhitespaceError,
>
    decreases from.len() - i,
{
    if i >= from.len() {
        Ok(Seq::empty())
    } else {
        match next_operation(from[i as int], character_at(to, j)) {
            None => Err(WhitespaceError::Mismatch { from: i as usize, to: j as usize }),
            Some(op) => match operations_from(from, to, i + 1, capped(j, op.advance(), to.len())) {
                Ok(rest) => Ok(seq![op] + rest),
                Err(e) => Err(e),
            },
        }
    }
}

/// A text is turned into itself by keeping every character.
pub proof fn lemma_operations_identity(chars: Seq<Seq<char>>, i: nat)
    requires
        i <= chars.len(),
    ensures
        operations_from(chars, chars, i, i) == Ok::<Seq<WhitespaceOperation>, WhitespaceError>(
            Seq::new((chars.len() - i) as nat, |k: int| WhitespaceOperation::Keep),
        ),
    decreases chars.len() - i,
{
    if i < chars.len() {
        lemma_operations_identity(chars, i + 1);
        let rest = Seq::new((chars.len() - i - 1) as nat, |k: int| WhitespaceOperation::Keep);
        assert(seq![WhitespaceOperation::Keep] + rest =~= Seq::new(
            (chars.len() - i) as nat,
            |k: int| WhitespaceOperation::Keep,
        ));
    } else {
        assert(Seq::<WhitespaceOperation>::empty() =~= Seq::new(
            (chars.len() - i) as nat,
            |k: int| WhitespaceOperation::Keep,
        ));
    }
}

/// The outcome of computing operations, with the operations as a sequence.
pub open spec fn operations_outcome(r: Result<Vec<WhitespaceOperation>, WhitespaceError>) -> Result<
    Seq<WhitespaceOperation>,
    WhitespaceError,
> {
    match r {
        Ok(ops) => Ok(ops@),
        Err(e) => Err(e),
    }
}

/// `done` in front of the operations of `rest`.
pub open spec fn prepended(
    done: Seq<WhitespaceOperation>,
    rest: Result<Seq<WhitespaceOperation>, WhitespaceError>,
) -> Result<Seq<WhitespaceOperation>, WhitespaceError> {
    match rest {
        Ok(ops) => Ok(done + ops),
        Err(e) => Err(e),
    }
}

/// The operations that turn the whitespace of `from` into that of `to`.
pub fn operations(from: &str, to: &str, use_graphemes: bool) -> (out: Result<
    Vec<WhitespaceOperation>,
    WhitespaceError,
>)
    ensures
        operations_outcome(out) == operations_from(
            segments(from@, use_graphemes),
            segments(to@, use_graphemes),
            0,
            0,
        ),
{
    let from_chars = characters(from, use_graphemes);
    let to_chars = characters(to, use_graphemes);
    let ghost source = texts(from_chars@);
    let ghost target = texts(to_chars@);
    let mut operations: Vec<WhitespaceOperation> = Vec::new();
    let mut from_ptr: usize = 0;
    let mut to_ptr: usize = 0;
    proof {
        assert(prepended(operations@, operations_from(source, target, 0, 0)) == operations_from(
            source,
            target,
            0,
            0,
        )) by {
            match operations_from(source, target, 0, 0) {
                Ok(ops) => {
                    assert(operations@ + ops =~= ops);
                },
                Err(_) => {},
            }
        }
    }
    while from_ptr < from_chars.len()
        invariant
            from_ptr <= from_chars@.len(),
            to_ptr <= to_chars@.len(),
            source == texts(from_chars@),
            target == texts(to_chars@),
            source == segments(from@, use_graphemes),
            target == segments(to@, use_graphemes),
            prepended(
                operations@,
                operations_from(source, target, from_ptr as nat, to_ptr as nat),
            ) == operations_from(source, target, 0, 0),
        decreases from_chars@.len() - from_ptr,
    {
        let ghost done = operations@;
        let ghost i = from_ptr as nat;
        let ghost j = to_ptr as nat;
        proof {
            assert(source[i as int] == from_chars@[i as int]@);
            if j < target.len() {
                assert(target[j as int] == to_chars@[j as int]@);
            }
        }
        let found = if to_ptr < to_chars.len() && same_chars(
            &from_chars[from_ptr],
            &to_chars[to_ptr],
        ) {
            Some(WhitespaceOperation::Keep)
        } else if to_ptr < to_chars.len() && character_is_whitespace(&to_chars[to_ptr]) {
            Some(WhitespaceOperation::Insert)
        } else if character_is_whitespace(&from_chars[from_ptr]) {
            Some(WhitespaceOperation::Delete)
        } else {
            None
        };
        proof {
            assert(next_operation(source[i as int], character_at(target, j)) == found);
        }
        let op = match found {
            Some(op) => op,
            None => {
                return Err(WhitespaceError::Mismatch { from: from_ptr, to: to_ptr });
            },
        };
        to_ptr = match op {
            WhitespaceOperation::Keep => to_ptr + 1,
            WhitespaceOperation::Insert => if to_ptr + 1 < to_chars.len() {
                to_ptr + 2
            } else {
                to_chars.len()
            },
            WhitespaceOperation::Delete => to_ptr,
        };
        operations.push(op);
        from_ptr += 1;
        proof {
            assert(to_ptr == capped(j, op.advance(), target.len()));
            match operations_from(source, target, from_ptr as nat, to_ptr as nat) {
                Ok(rest) => {
                    assert(operations@ + rest =~= done + (seq![op] + rest));
                },
                Err(_) => {},
            }
        }
    }
    proof {
        assert(operations@ + Seq::<WhitespaceOperation>::empty() =~= operations@);
    }
    Ok(operations)
}

/// What character `i` of a text becomes when the operations are applied:
/// a space and the character, where a space is to be inserted and neither
/// the character nor the one before it is whitespace; nothing, where a
/// whitespace is to be deleted; the character itself otherwise.
pub open spec fn repaired_piece(
    chars: Seq<Seq<char>>,
    operations: Seq<WhitespaceOperation>,
    i: int,
) -> Seq<char> {
    if operations[i] == WhitespaceOperation::Insert && !whitespace_only(chars[i]) && (i == 0
        || !whitespace_only(chars[i - 1])) {
        seq![' '] + chars[i]
    } else if operations[i] == WhitespaceOperation::Delete && whitespace_only(chars[i]) {
        Seq::empty()
    } else {
        chars[i]
    }
}

/// The text that the operations make of the characters.
pub open spec fn repaired(chars: Seq<Seq<char>>, operations: Seq<WhitespaceOperation>) -> Seq<char> {
    flattened(Seq::new(chars.len(), |i: int| repaired_piece(chars, operations, i)))
}

/// The outcome of a repair, with the text as a sequence.
pub open spec fn repair_outcome(r: Result<String, WhitespaceError>) -> Result<
    Seq<char>,
    WhitespaceError,
> {
    match r {
        Ok(text) => Ok(text@),
        Err(e) => Err(e),
    }
}

/// Applies whitespace operations to a text: one for every character of it.
pub fn repair(s: &str, operations: &[WhitespaceOperation], use_graphemes: bool) -> (out: Result<
    String,
    WhitespaceError,
>)
    ensures
        repair_outcome(out) == (if segments(s@, use_graphemes).len() != operations@.len() {
            Err::<Seq<char>, WhitespaceError>(
                WhitespaceError::OperationCount {
                    operations: operations@.len() as usize,
                    characters: segments(s@, use_graphemes).len() as usize,
                },
            )
        } else {
            Ok(repaired(segments(s@, use_graphemes), operations@))
        }),
{
    let chars = characters(s, use_graphemes);
    if chars.len() != operations.len() {
        return Err(
            WhitespaceError::OperationCount {
                operations: operations.len(),
                characters: chars.len(),
            },
        );
    }
    let ghost all = texts(chars@);
    let ghost pieces = Seq::new(all.len(), |i: int| repaired_piece(all, operations@, i));
    let mut output: Vec<char> = Vec::new();
    let mut idx: usize = 0;
    let mut after_whitespace = false;
    proof {
        assert(pieces.take(0) =~= Seq::<Seq<char>>::empty());
    }
    while idx < chars.len()
        invariant
            idx <= chars@.len(),
            chars@.len() == operations@.len(),
            all == texts(chars@),
            pieces == Seq::new(all.len(), |i: int| repaired_piece(all, operations@, i)),
            output@ == flattened(pieces.take(idx as int)),
            idx > 0 ==> after_whitespace == whitespace_only(all[idx - 1]),
        decreases chars@.len() - idx,
    {
        let whitespace = character_is_whitespace(&chars[idx]);
        let op = operations[idx];
        proof {
            assert(all[idx as int] == chars@[idx as int]@);
            let next = pieces.take(idx as int + 1);
            assert(next.drop_last() =~= pieces.take(idx as int));
            assert(next.last() == repaired_piece(all, operations@, idx as int));
        }
        let skip = op == WhitespaceOperation::Delete && whitespace;
        if op == WhitespaceOperation::Insert && !whitespace && (idx == 0 || !after_whitespace) {
            output.push(' ');
        }
        if !skip {
            let mut k: usize = 0;
            let ghost before = output@;
            while k < chars[idx].len()
                invariant
                    idx < chars@.len(),
                    k <= chars@[idx as int]@.len(),
                    output@ == before + chars@[idx as int]@.take(k as int),
                decreases chars@[idx as int]@.len() - k,
            {
                output.push(chars[idx][k]);
                proof {
                    assert(chars@[idx as int]@.take(k + 1) =~= chars@[idx as int]@.take(
                        k as int,
                    ).push(chars@[idx as int]@[k as int]));
                }
                k += 1;
            }
            proof {
                assert(chars@[idx as int]@.take(k as int) =~= chars@[idx as int]@);
                assert(output@ =~= flattened(pieces.take(idx as int)) + repaired_piece(
                    all,
                    operations@,
                    idx as int,
                ));
            }
        } else {
            proof {
                assert(output@ =~= flattened(pieces.take(idx as int)) + repaired_piece(
                    all,
                    operations@,
                    idx as int,
                ));
            }
        }
        after_whitespace = whitespace;
        idx += 1;
    }
    proof {
        assert(pieces.take(all.len() as int) =~= pieces);
    }
    Ok(string_of(&output))
}


/// Whether a character has a meaning of its own in a search pattern.
pub open spec fn is_meta_character(c: char) -> bool {
    c == '\\' || c == '.' || c == '+' || c == '*' || c == '?' || c == '(' || c == ')' || c == '|'
        || c == '[' || c == ']' || c == '{' || c == '}' || c == '^' || c == '$' || c == '#' || c
        == '&' || c == '-' || c == '~'
}

/// `s` with a backslash in front of every character that has a meaning of
/// its own in a search pattern.
pub open spec fn escaped(s: Seq<char>) -> Seq<char>
    decreases s.len(),
{
    if s.len() == 0 {
        Seq::empty()
    } else if is_meta_character(s.last()) {
        escaped(s.drop_last()).push('\\').push(s.last())
    } else {
        escaped(s.drop_last()).push(s.last())
    }
}

/// `regex::escape` copies a text and puts a backslash in front of every
/// meta character of the pattern syntax, which are the eighteen characters of
/// `is_meta_character`. The text is handed over as a string and comes back
/// as characters.
#[verifier::external_body]
fn escape(text: &Vec<char>) -> (out: Vec<char>)
    ensures
        out@ == escaped(text@),
{
    regex::escape(&text.iter().collect::<String>()).chars().collect()
}

/// The error with which a pattern is refused.
#[verifier::external_type_specification]
#[verifier::external_body]
pub struct ExPatternError(regex::Error);

/// The first match of the pattern `pattern` in the text `haystack`, as the
/// byte offsets of its start and of its end: the value of `Regex::find` for
/// the expression that `Regex::new` makes of the pattern.
pub uninterp spec fn regex_find(pattern: Seq<char>, haystack: Seq<char>) -> Option<(usize, usize)>;

/// `Regex::new` compiles a pattern, or refuses it when it is invalid or
/// too large; `Regex::find` searches a text for the first match of the
/// compiled expression, and `Match::start` and `Match::end` give the byte
/// offsets of the match, the start not behind the end and both inside the
/// text. The contract names the match of a pattern that is not refused
/// `regex_find`, and promises nothing about which patterns are refused.
#[verifier::external_body]
fn search(pattern: &str, haystack: &str) -> (out: Result<Option<(usize, usize)>, regex::Error>)
    ensures
        out matches Ok(found) ==> found == regex_find(pattern@, haystack@),
        out matches Ok(Some(m)) ==> m.0 <= m.1 <= haystack.len(),
{
    let expression = regex::Regex::new(pattern)?;
    Ok(expression.find(haystack).map(|m| (m.start(), m.end())))
}

/// Each of `parts`, escaped.
pub open spec fn escaped_all(parts: Seq<Seq<char>>) -> Seq<Seq<char>> {
    Seq::new(parts.len(), |i: int| escaped(parts[i]))
}

/// The pattern that finds `substring` with any whitespace between its
/// characters: its characters that are no whitespace, each escaped, with
/// `\s*` between every two of them.
pub open spec fn substring_pattern(substring: Seq<char>, use_graphemes: bool) -> Seq<char> {
    joined(escaped_all(without_whitespace(segments(substring, use_graphemes))), "\\s*"@)
}

/// What a search that came back means: the match, or that no search could be made.
pub fn search_outcome(found: Result<Option<(usize, usize)>, regex::Error>) -> (out: Result<
    Option<(usize, usize)>,
    WhitespaceError,
>)
    ensures
        out == (match found {
            Ok(m) => Ok::<Option<(usize, usize)>, WhitespaceError>(m),
            Err(_) => Err(WhitespaceError::Pattern),
        }),
{
    match found {
        Ok(m) => Ok(m),
        Err(_) => Err(WhitespaceError::Pattern),
    }
}

/// Finds the first place in `s` that holds the characters of `substring`
/// with any whitespace between them, as byte offsets into `s`.
pub fn find_substring_ignoring_whitespace(s: &str, substring: &str, use_graphemes: bool) -> (out:
    Result<Option<(usize, usize)>, WhitespaceError>)
    ensures
        out matches Ok(found) ==> found == regex_find(
            substring_pattern(substring@, use_graphemes),
            s@,
        ),
        out matches Ok(Some(m)) ==> m.0 <= m.1 <= s.len(),
        out matches Err(e) ==> e == WhitespaceError::Pattern,
{
    let visible = keep_visible(characters(substring, use_graphemes));
    let mut parts: Vec<Vec<char>> = Vec::new();
    let mut i: usize = 0;
    while i < visible.len()
        invariant
            i <= visible@.len(),
            parts@.len() == i,
            forall|j: int| 0 <= j < i ==> (#[trigger] parts@[j])@ == escaped(visible@[j]@),
        decreases visible@.len() - i,
    {
        parts.push(escape(&visible[i]));
        i += 1;
    }
    proof {
        assert(texts(parts@) =~= escaped_all(texts(visible@)));
    }
    let pattern = join_parts(&parts, "\\s*");
    search_outcome(search(pattern.as_str(), s))
}

} // verus!
