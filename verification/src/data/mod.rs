//! Records, items, batches and their tensorized form.

use vstd::prelude::*;
use crate::data::loading::{
    batch_views, batched, batcher_config_error, batches_of, lemma_concat_all_flattened, min_len,
    mix, mixed_stream, nats, pipe, saturated, source_lengths, source_views, strategy_min_len,
    total, within_limit, BatchLimitType, BatcherConfig, BatcherParams, ShardPlan,
    TextIterationStrategy, MAX_WORKERS,
};
use crate::error::{ConfigError, ContractError, ParseError};
use crate::unicode::{
    chars_of, fields, parse_u8, parsed_u8, same_chars, split_fields, string_of, texts, trim,
    trimmed, Separator,
};
use crate::utils::{
    concat_all, copy_of, copy_opt_text, flattened, join, lemma_concat_three, lemma_concat_two,
    lemma_seq_max, opt_text, repeat, seq_max, Grid,
};

pub mod loading;

verus! {

/// A text record as it enters the pipeline.
#[derive(Debug, PartialOrd, PartialEq, Ord, Eq, Hash)]
pub struct TextData {
    pub original: String,
    pub processed: String,
    pub language: Option<String>,
}

/// What a `TextData` holds, as plain sequences.
pub struct TextDataView {
    pub original: Seq<char>,
    pub processed: Seq<char>,
    pub language: Option<Seq<char>>,
}

impl View for TextData {
    type V = TextDataView;

    open spec fn view(&self) -> TextDataView {
        TextDataView {
            original: self.original@,
            processed: self.processed@,
            language: opt_text(self.language),
        }
    }
}

impl Clone for TextData {
    fn clone(&self) -> (out: Self)
        ensures
            out@ == self@,
    {
        TextData {
            original: self.original.clone(),
            processed: self.processed.clone(),
            language: copy_opt_text(&self.language),
        }
    }
}

impl TextData {
    /// A record whose processed text defaults to the original text.
    pub fn new(original: String, processed: Option<String>, language: Option<String>) -> (out: Self)
        ensures
            out@.original == original@,
            out@.processed == (match processed {
                Some(p) => p@,
                None => original@,
            }),
            out@.language == opt_text(language),
    {
        let processed = match processed {
            Some(p) => p,
            None => original.clone(),
        };
        TextData { original, processed, language }
    }
}


/// What a record is to be predicted as.
#[derive(Debug, Ord, PartialOrd, Eq, PartialEq, Hash)]
pub enum Label {
    /// One class for the whole text.
    Classification(i32),
    /// One class for every group of the text.
    SeqClassification(Vec<i32>),
    /// A target sequence.
    Seq2Seq(Vec<i32>),
}

/// What a `Label` holds, as plain values.
pub enum LabelView {
    Classification(i32),
    SeqClassification(Seq<i32>),
    Seq2Seq(Seq<i32>),
}

impl View for Label {
    type V = LabelView;

    open spec fn view(&self) -> LabelView {
        match self {
            Label::Classification(c) => LabelView::Classification(*c),
            Label::SeqClassification(l) => LabelView::SeqClassification(l@),
            Label::Seq2Seq(l) => LabelView::Seq2Seq(l@),
        }
    }
}

impl Clone for Label {
    fn clone(&self) -> (out: Self)
        ensures
            out@ == self@,
    {
        match self {
            Label::Classification(c) => Label::Classification(*c),
            Label::SeqClassification(l) => Label::SeqClassification(copy_of(l)),
            Label::Seq2Seq(l) => Label::Seq2Seq(copy_of(l)),
        }
    }
}

/// The keys under which the parts of a label are exchanged.
#[derive(Clone, Copy, Debug, PartialEq, Eq, Structural)]
pub enum LabelKey {
    /// `type`: the name of the variant.
    Type,
    /// `label`: the class of a classification label.
    Label,
    /// `labels`: the classes of a sequence label.
    Labels,
}

/// Why the parts of a label do not make a label.
#[derive(Clone, Copy, Debug, PartialEq, Eq, Structural)]
pub enum LabelError {
    /// A part that the variant needs is absent.
    RequiredKey(LabelKey),
    /// The name is that of no variant.
    InvalidType,
}

/// The name of each label variant.
pub open spec fn label_variant_name(label: LabelView) -> Seq<char> {
    match label {
        LabelView::Classification(_) => "classification"@,
        LabelView::SeqClassification(_) => "sequence_classification"@,
        LabelView::Seq2Seq(_) => "seq2seq"@,
    }
}

/// The label that the exchanged parts describe: the variant that `name`
/// names, filled from the part that this variant needs.
pub open spec fn label_from_parts(
    name: Option<Seq<char>>,
    label: Option<i32>,
    labels: Option<Seq<i32>>,
) -> Result<LabelView, LabelError> {
    match name {
        None => Err(LabelError::RequiredKey(LabelKey::Type)),
        Some(n) => if n == "classification"@ {
            match label {
                Some(c) => Ok(LabelView::Classification(c)),
                None => Err(LabelError::RequiredKey(LabelKey::Label)),
            }
        } else if n == "sequence_classification"@ {
            match labels {
                Some(l) => Ok(LabelView::SeqClassification(l)),
                None => Err(LabelError::RequiredKey(LabelKey::Labels)),
            }
        } else if n == "seq2seq"@ {
            match labels {
                Some(l) => Ok(LabelView::Seq2Seq(l)),
                None => Err(LabelError::RequiredKey(LabelKey::Labels)),
            }
        } else {
            Err(LabelError::InvalidType)
        },
    }
}

/// The view of an optional vector.
pub open spec fn opt_seq<T>(v: Option<Vec<T>>) -> Option<Seq<T>> {
    match v {
        Some(x) => Some(x@),
        None => None,
    }
}

/// The view of an optional string slice.
pub open spec fn opt_str(s: Option<&str>) -> Option<Seq<char>> {
    match s {
        Some(t) => Some(t@),
        None => None,
    }
}

/// The view of the outcome of building a label.
pub open spec fn label_outcome(r: Result<Label, LabelError>) -> Result<LabelView, LabelError> {
    match r {
        Ok(l) => Ok(l@),
        Err(e) => Err(e),
    }
}

/// Whether two string slices hold the same text.
pub fn same_text(a: &str, b: &str) -> (same: bool)
    ensures
        same == (a@ == b@),
{
    same_chars(&chars_of(a), &chars_of(b))
}

impl Label {
    /// The name under which the variant of this label is exchanged.
    pub fn variant_name(&self) -> (name: &'static str)
        ensures
            name@ == label_variant_name(self@),
    {
        match self {
            Label::Classification(_) => "classification",
            Label::SeqClassification(_) => "sequence_classification",
            Label::Seq2Seq(_) => "seq2seq",
        }
    }

    /// Builds a label from its exchanged parts: the name of the variant, and
    /// the class or the classes, each absent where the exchange held no such key.
    pub fn from_parts(name: Option<&str>, label: Option<i32>, labels: Option<Vec<i32>>) -> (out:
        Result<Label, LabelError>)
        ensures
            label_outcome(out) == label_from_parts(opt_str(name), label, opt_seq(labels)),
    {
        let name = match name {
            Some(n) => n,
            None => {
                return Err(LabelError::RequiredKey(LabelKey::Type));
            },
        };
        if same_text(name, "classification") {
            match label {
                Some(c) => Ok(Label::Classification(c)),
                None => Err(LabelError::RequiredKey(LabelKey::Label)),
            }
        } else if same_text(name, "sequence_classification") {
            match labels {
                Some(l) => Ok(Label::SeqClassification(l)),
                None => Err(LabelError::RequiredKey(LabelKey::Labels)),
            }
        } else if same_text(name, "seq2seq") {
            match labels {
                Some(l) => Ok(Label::Seq2Seq(l)),
                None => Err(LabelError::RequiredKey(LabelKey::Labels)),
            }
        } else {
            Err(LabelError::InvalidType)
        }
    }
}


/// One named grouping of the tokens of a text: `groups` holds one entry for
/// every group, so its length is the number of groups.
#[derive(Debug, PartialEq, Eq)]
pub struct TokenGroup {
    pub name: String,
    pub groups: Vec<usize>,
}

impl Clone for TokenGroup {
    fn clone(&self) -> (out: Self)
        ensures
            out.name@ == self.name@,
            out.groups@ == self.groups@,
    {
        TokenGroup { name: self.name.clone(), groups: copy_of(&self.groups) }
    }
}

/// What a tokenizer reports beside the token ids.
#[derive(Debug, PartialEq, Eq)]
pub enum TokenizationInfo {
    /// Nothing.
    Empty,
    /// Named groupings, each name at most once.
    TokenGroups(Vec<TokenGroup>),
}

/// The number of groups of the first grouping called `name`, if there is one.
pub open spec fn group_count(entries: Seq<TokenGroup>, name: Seq<char>) -> Option<nat>
    decreases entries.len(),
{
    if entries.len() == 0 {
        None
    } else if entries[0].name@ == name {
        Some(entries[0].groups@.len())
    } else {
        group_count(entries.drop_first(), name)
    }
}

proof fn lemma_group_count_skips(entries: Seq<TokenGroup>, name: Seq<char>, k: int)
    requires
        0 <= k <= entries.len(),
        forall|j: int| 0 <= j < k ==> entries[j].name@ != name,
    ensures
        group_count(entries, name) == group_count(entries.subrange(k, entries.len() as int), name),
    decreases k,
{
    if k > 0 {
        assert(entries.drop_first().subrange(k - 1, entries.len() - 1) =~= entries.subrange(
            k,
            entries.len() as int,
        ));
        lemma_group_count_skips(entries.drop_first(), name, k - 1);
    } else {
        assert(entries.subrange(0, entries.len() as int) =~= entries);
    }
}

/// The count is that of the first grouping of the name, or none without one.
proof fn lemma_group_count_first(entries: Seq<TokenGroup>, name: Seq<char>)
    ensures
        group_count(entries, name) is None <==> forall|j: int|
            0 <= j < entries.len() ==> (#[trigger] entries[j]).name@ != name,
        group_count(entries, name) is Some ==> exists|k: int|
            0 <= k < entries.len() && entries[k].name@ == name && group_count(entries, name)
                == Some(entries[k].groups@.len()) && forall|j: int|
                0 <= j < k ==> (#[trigger] entries[j]).name@ != name,
    decreases entries.len(),
{
    if entries.len() > 0 {
        if entries[0].name@ == name {
            assert(entries[0].name@ == name && forall|j: int|
                0 <= j < 0 ==> (#[trigger] entries[j]).name@ != name);
        } else {
            let rest = entries.drop_first();
            lemma_group_count_first(rest, name);
            if group_count(entries, name) is Some {
                let k = choose|k: int|
                    0 <= k < rest.len() && rest[k].name@ == name && group_count(rest, name)
                        == Some(rest[k].groups@.len()) && forall|j: int|
                        0 <= j < k ==> (#[trigger] rest[j]).name@ != name;
                assert(entries[k + 1] == rest[k]);
                assert forall|j: int| 0 <= j < k + 1 implies (#[trigger] entries[j]).name@
                    != name by {
                    if j > 0 {
                        assert(entries[j] == rest[j - 1]);
                    }
                }
            } else {
                assert forall|j: int| 0 <= j < entries.len() implies (#[trigger] entries[j]).name@
                    != name by {
                    if j > 0 {
                        assert(entries[j] == rest[j - 1]);
                    }
                }
            }
            if forall|j: int| 0 <= j < entries.len() ==> (#[trigger] entries[j]).name@ != name {
                assert forall|j: int| 0 <= j < rest.len() implies (#[trigger] rest[j]).name@
                    != name by {
                    assert(rest[j] == entries[j + 1]);
                }
            }
        }
    }
}

proof fn lemma_group_count_at(entries: Seq<TokenGroup>, name: Seq<char>, k: int)
    requires
        0 <= k < entries.len(),
        entries[k].name@ == name,
        forall|j: int| 0 <= j < k ==> (#[trigger] entries[j]).name@ != name,
    ensures
        group_count(entries, name) == Some(entries[k].groups@.len()),
{
    lemma_group_count_skips(entries, name, k);
    assert(entries.subrange(k, entries.len() as int)[0] == entries[k]);
}

impl TokenizationInfo {
    /// The groupings that the info holds.
    pub open spec fn entries(&self) -> Seq<TokenGroup> {
        match self {
            TokenizationInfo::Empty => Seq::empty(),
            TokenizationInfo::TokenGroups(groups) => groups@,
        }
    }

    /// No name occurs twice.
    pub open spec fn wf(&self) -> bool {
        forall|i: int, j: int|
            0 <= i < j < self.entries().len() ==> self.entries()[i].name@
                != self.entries()[j].name@
    }

    /// The info with the grouping `name` set to `groups`: in place of the
    /// grouping of that name if there is one, and behind the others if not.
    pub fn with_group(self, name: String, groups: Vec<usize>) -> (out: Self)
        requires
            self.wf(),
        ensures
            out.wf(),
            group_count(out.entries(), name@) == Some(groups@.len()),
            forall|other: Seq<char>|
                other != name@ ==> group_count(out.entries(), other) == group_count(
                    self.entries(),
                    other,
                ),
    {
        let mut entries = match self {
            TokenizationInfo::Empty => Vec::new(),
            TokenizationInfo::TokenGroups(entries) => entries,
        };
        let ghost before = entries@;
        let mut i: usize = 0;
        while i < entries.len() && !same_text(entries[i].name.as_str(), name.as_str())
            invariant
                i <= entries@.len(),
                entries@ == before,
                forall|j: int| 0 <= j < i ==> (#[trigger] before[j]).name@ != name@,
            decreases entries@.len() - i,
        {
            i += 1;
        }
        if i < entries.len() {
            entries.set(i, TokenGroup { name, groups });
        } else {
            entries.push(TokenGroup { name, groups });
        }
        proof {
            let after = entries@;
            assert forall|other: Seq<char>| group_count(after, other) == (if other == name@ {
                Some(groups@.len())
            } else {
                group_count(before, other)
            }) by {
                lemma_group_count_first(before, other);
                lemma_group_count_first(after, other);
                if other == name@ {
                    assert(after[i as int].name@ == name@);
                } else if group_count(before, other) is Some {
                    let k = choose|k: int|
                        0 <= k < before.len() && before[k].name@ == other && group_count(
                            before,
                            other,
                        ) == Some(before[k].groups@.len()) && forall|j: int|
                            0 <= j < k ==> (#[trigger] before[j]).name@ != other;
                    assert(after[k] == before[k]);
                    assert forall|j: int| 0 <= j < k implies (#[trigger] after[j]).name@
                        != other by {
                        if j != i {
                            assert(after[j] == before[j]);
                        }
                    }
                    lemma_group_count_at(after, other, k);
                } else {
                    assert forall|j: int| 0 <= j < after.len() implies (#[trigger] after[j]).name@
                        != other by {
                        if j != i {
                            assert(after[j] == before[j]);
                        }
                    }
                    lemma_group_count_skips(after, other, after.len() as int);
                }
            }
            assert forall|a: int, b: int| 0 <= a < b < after.len() implies after[a].name@
                != after[b].name@ by {
                if a != i && b != i {
                    assert(after[a] == before[a] && after[b] == before[b]);
                } else if a == i {
                    assert(after[b] == before[b]);
                } else {
                    assert(after[a] == before[a]);
                }
            }
        }
        TokenizationInfo::TokenGroups(entries)
    }

    /// The number of groups of the grouping called `name`.
    pub fn group_len(&self, name: &str) -> (out: Option<usize>)
        ensures
            out is Some <==> group_count(self.entries(), name@) is Some,
            out matches Some(n) ==> group_count(self.entries(), name@) == Some(n as nat),
    {
        match self {
            TokenizationInfo::Empty => None,
            TokenizationInfo::TokenGroups(groups) => {
                let mut i: usize = 0;
                while i < groups.len()
                    invariant
                        i <= groups.len(),
                        self.entries() == groups@,
                        forall|j: int| 0 <= j < i ==> groups@[j].name@ != name@,
                    decreases groups.len() - i,
                {
                    if same_text(groups[i].name.as_str(), name) {
                        proof {
                            lemma_group_count_skips(groups@, name@, i as int);
                            assert(groups@.subrange(i as int, groups.len() as int)[0]
                                == groups@[i as int]);
                        }
                        return Some(groups[i].groups.len());
                    }
                    i += 1;
                }
                proof {
                    lemma_group_count_skips(groups@, name@, groups.len() as int);
                }
                None
            },
        }
    }
}

/// A text as a tokenizer returns it.
#[derive(Debug, PartialEq, Eq)]
pub struct Tokenization {
    pub token_ids: Vec<u32>,
    pub info: TokenizationInfo,
}

/// The number of groups by which the labels of a tokenized text are laid
/// out: that of its code point groups; without those, that of its byte
/// groups; without either, the number of its tokens.
pub open spec fn group_width(t: Tokenization) -> nat {
    match group_count(t.info.entries(), "code_point_groups"@) {
        Some(n) => n,
        None => match group_count(t.info.entries(), "byte_groups"@) {
            Some(n) => n,
            None => t.token_ids@.len(),
        },
    }
}

impl Tokenization {
    /// A tokenization of the given token ids and info.
    pub fn new(token_ids: Vec<u32>, info: TokenizationInfo) -> (out: Self)
        ensures
            out.token_ids == token_ids,
            out.info == info,
    {
        Tokenization { token_ids, info }
    }

    /// The number of groups that the labels of this text are laid out by.
    pub fn num_groups(&self) -> (n: usize)
        ensures
            n == group_width(*self),
    {
        match self.info.group_len("code_point_groups") {
            Some(n) => n,
            None => match self.info.group_len("byte_groups") {
                Some(n) => n,
                None => self.token_ids.len(),
            },
        }
    }
}

/// What has a size by which batches are limited.
pub trait ItemSize {
    /// The size of the item.
    spec fn spec_size(&self) -> nat;

    /// The size of the item.
    fn size(&self) -> (n: usize)
        ensures
            n == self.spec_size(),
    ;
}

/// A training item: a record, its tokens and its label.
#[derive(Debug)]
pub struct Item {
    pub data: TextData,
    pub tokenization: Tokenization,
    pub label: Label,
}

impl ItemSize for Item {
    open spec fn spec_size(&self) -> nat {
        self.tokenization.token_ids@.len()
    }

    fn size(&self) -> (n: usize) {
        self.tokenization.token_ids.len()
    }
}

impl Item {
    /// An item of the given parts.
    pub fn new(data: TextData, tokenization: Tokenization, label: Label) -> (out: Self)
        ensures
            out.data == data,
            out.tokenization == tokenization,
            out.label == label,
    {
        Item { data, tokenization, label }
    }
}


/// An ordered group of items that is handed on as one.
#[derive(Debug)]
pub struct Batch<T> {
    pub items: Vec<T>,
}

impl<T> View for Batch<T> {
    type V = Seq<T>;

    open spec fn view(&self) -> Seq<T> {
        self.items@
    }
}

impl<T> Batch<T> {
    /// The batch of `items`, in their order.
    pub fn new(items: Vec<T>) -> (out: Self)
        ensures
            out@ == items@,
    {
        Batch { items }
    }

    /// The number of items.
    pub fn len(&self) -> (n: usize)
        ensures
            n == self@.len(),
    {
        self.items.len()
    }

    /// The items, in their order.
    pub fn into_items(self) -> (items: Vec<T>)
        ensures
            items@ == self@,
    {
        self.items
    }
}

/// The token ids of each tokenization.
pub open spec fn token_rows(tokenizations: Seq<&Tokenization>) -> Seq<Seq<u32>> {
    Seq::new(tokenizations.len(), |i: int| tokenizations[i].token_ids@)
}

/// The length of each row.
pub open spec fn row_lengths<T>(rows: Seq<Seq<T>>) -> Seq<nat> {
    Seq::new(rows.len(), |i: int| rows[i].len())
}

/// Cell `j` of a row that is filled up with `pad` behind its own cells.
pub open spec fn padded_cell(row: Seq<u32>, j: int, pad: u32) -> u32 {
    if j < row.len() {
        row[j]
    } else {
        pad
    }
}

/// `row` filled up with `pad` to `width` cells.
pub open spec fn padded_row(row: Seq<u32>, width: nat, pad: u32) -> Seq<u32> {
    Seq::new(width, |j: int| padded_cell(row, j, pad))
}

/// Token ids padded to a rectangle, with the length of each unpadded row.
#[derive(Debug, PartialEq, Eq)]
pub struct TensorizedTokens {
    pub token_ids: Grid<u32>,
    pub lengths: Vec<usize>,
}

impl TensorizedTokens {
    /// The array has one row for every row of `rows` and as many columns as
    /// the longest of them has cells; each row starts with the cells of its
    /// row of `rows`, whose number `lengths` records, and holds `pad` behind them.
    pub open spec fn pads(&self, rows: Seq<Seq<u32>>, pad: u32) -> bool {
        &&& self.token_ids.wf()
        &&& self.token_ids.rows == rows.len()
        &&& self.token_ids.cols == seq_max(row_lengths(rows))
        &&& self.lengths@.len() == rows.len()
        &&& forall|i: int| 0 <= i < rows.len() ==> (#[trigger] self.lengths@[i]) == rows[i].len()
        &&& forall|i: int|
            0 <= i < rows.len() ==> #[trigger] self.token_ids.row(i) == padded_row(
                rows[i],
                self.token_ids.cols as nat,
                pad,
            )
    }
}

/// The shape and the cells of a padded array: it has one row per text and as
/// many columns as the longest text has tokens, which is the largest of the
/// recorded lengths; in each row the cells before the recorded length hold
/// the tokens of the text, in their order, and every cell from there on holds `pad`.
pub proof fn lemma_padded_cells(t: TensorizedTokens, rows: Seq<Seq<u32>>, pad: u32)
    requires
        t.pads(rows, pad),
    ensures
        t.token_ids.rows == rows.len(),
        t.lengths@.len() == rows.len(),
        t.token_ids.cols == seq_max(Seq::new(rows.len(), |i: int| t.lengths@[i] as nat)),
        forall|i: int| 0 <= i < rows.len() ==> (#[trigger] t.lengths@[i]) <= t.token_ids.cols,
        forall|i: int, j: int|
            0 <= i < rows.len() && 0 <= j < t.lengths@[i] ==> #[trigger] t.token_ids.at(i, j)
                == rows[i][j],
        forall|i: int, j: int|
            0 <= i < rows.len() && t.lengths@[i] <= j < t.token_ids.cols
                ==> #[trigger] t.token_ids.at(i, j) == pad,
{
    let lens = row_lengths(rows);
    assert(Seq::new(rows.len(), |i: int| t.lengths@[i] as nat) =~= lens);
    lemma_seq_max(lens);
    assert forall|i: int| 0 <= i < rows.len() implies (#[trigger] t.lengths@[i])
        <= t.token_ids.cols by {
        assert(lens[i] <= seq_max(lens));
    }
    assert forall|i: int, j: int| 0 <= i < rows.len() && 0 <= j < t.lengths@[i] implies #[trigger] t.token_ids.at(
        i,
        j,
    ) == rows[i][j] by {
        assert(lens[i] <= seq_max(lens));
        t.token_ids.lemma_cell(i, j);
        assert(t.token_ids.row(i) == padded_row(rows[i], t.token_ids.cols as nat, pad));
    }
    assert forall|i: int, j: int|
        0 <= i < rows.len() && t.lengths@[i] <= j < t.token_ids.cols implies #[trigger] t.token_ids.at(
        i,
        j,
    ) == pad by {
        t.token_ids.lemma_cell(i, j);
        assert(t.token_ids.row(i) == padded_row(rows[i], t.token_ids.cols as nat, pad));
    }
}

/// Every text is found again in its row: the cells before the recorded
/// length are the tokens of the text.
pub proof fn lemma_unpadded_prefix(t: TensorizedTokens, rows: Seq<Seq<u32>>, pad: u32, i: int)
    requires
        t.pads(rows, pad),
        0 <= i < rows.len(),
    ensures
        t.lengths@[i] <= t.token_ids.cols,
        t.token_ids.row(i).take(t.lengths@[i] as int) == rows[i],
{
    let lens = row_lengths(rows);
    lemma_seq_max(lens);
    assert(lens[i] <= seq_max(lens));
    assert(t.token_ids.row(i) == padded_row(rows[i], t.token_ids.cols as nat, pad));
    assert(t.token_ids.row(i).take(t.lengths@[i] as int) =~= rows[i]);
}

/// The largest number of label groups among `tokenizations`, and 0 if there are none.
pub fn max_groups(tokenizations: &Vec<&Tokenization>) -> (width: usize)
    ensures
        width == seq_max(Seq::new(tokenizations@.len(), |i: int| group_width(*tokenizations@[i]))),
{
    let ghost widths = Seq::new(tokenizations@.len(), |i: int| group_width(*tokenizations@[i]));
    let mut width: usize = 0;
    let mut i: usize = 0;
    proof {
        assert(widths.take(0) =~= Seq::<nat>::empty());
    }
    while i < tokenizations.len()
        invariant
            i <= tokenizations.len(),
            widths == Seq::new(tokenizations@.len(), |i: int| group_width(*tokenizations@[i])),
            width == seq_max(widths.take(i as int)),
        decreases tokenizations.len() - i,
    {
        let n = tokenizations[i].num_groups();
        proof {
            let next = widths.take(i as int + 1);
            assert(next.drop_last() =~= widths.take(i as int));
            assert(next.last() == n as nat);
        }
        if n >= width {
            width = n;
        }
        i += 1;
    }
    proof {
        assert(widths.take(widths.len() as int) =~= widths);
    }
    width
}

/// Pads the token ids of `tokenizations` with `pad_token_id` to a rectangle.
pub fn prepare(tokenizations: Vec<&Tokenization>, pad_token_id: u32) -> (out: TensorizedTokens)
    ensures
        out.pads(token_rows(tokenizations@), pad_token_id),
{
    let ghost rows = token_rows(tokenizations@);
    let ghost lens = row_lengths(rows);
    let mut max_token_ids: usize = 0;
    let mut k: usize = 0;
    proof {
        assert(lens.take(0) =~= Seq::<nat>::empty());
    }
    while k < tokenizations.len()
        invariant
            k <= tokenizations.len(),
            rows == token_rows(tokenizations@),
            lens == row_lengths(rows),
            max_token_ids == seq_max(lens.take(k as int)),
        decreases tokenizations.len() - k,
    {
        let n = tokenizations[k].token_ids.len();
        proof {
            let next = lens.take(k as int + 1);
            assert(next.drop_last() =~= lens.take(k as int));
            assert(next.last() == n as nat);
        }
        if n >= max_token_ids {
            max_token_ids = n;
        }
        k += 1;
    }
    proof {
        assert(lens.take(lens.len() as int) =~= lens);
        lemma_seq_max(lens);
    }
    let mut token_ids: Grid<u32> = Grid::new(max_token_ids);
    let mut lengths: Vec<usize> = Vec::new();
    let mut i: usize = 0;
    while i < tokenizations.len()
        invariant
            i <= tokenizations.len(),
            rows == token_rows(tokenizations@),
            lens == row_lengths(rows),
            max_token_ids == seq_max(lens),
            forall|r: int| 0 <= r < lens.len() ==> lens[r] <= seq_max(lens),
            token_ids.wf(),
            token_ids.rows == i,
            token_ids.cols == max_token_ids,
            lengths@.len() == i,
            forall|r: int| 0 <= r < i ==> (#[trigger] lengths@[r]) == rows[r].len(),
            forall|r: int|
                0 <= r < i ==> #[trigger] token_ids.row(r) == padded_row(
                    rows[r],
                    max_token_ids as nat,
                    pad_token_id,
                ),
        decreases tokenizations.len() - i,
    {
        let tokenization = tokenizations[i];
        let num_token_ids = tokenization.token_ids.len();
        proof {
            assert(lens[i as int] == num_token_ids);
        }
        let ids = copy_of(&tokenization.token_ids);
        let padding = repeat(pad_token_id, max_token_ids - num_token_ids);
        let ghost parts = seq![ids, padding];
        let row = join(vec![ids, padding]);
        proof {
            lemma_concat_two(ids, padding);
            assert(row@ =~= padded_row(rows[i as int], max_token_ids as nat, pad_token_id));
        }
        let ghost before = token_ids;
        token_ids.push_row(row);
        lengths.push(num_token_ids);
        i += 1;
    }
    TensorizedTokens { token_ids, lengths }
}


/// The layout of the lines of an inference file.
#[derive(Clone, Copy, Debug, PartialEq, Eq, Structural)]
pub enum InferenceDataFileFormat {
    /// The whole line is the text.
    Text,
    /// The text, a tab, the detections.
    TextPlusDetections,
    /// The text, a tab, the language.
    TextPlusLanguage,
    /// The text, a tab, the detections, a tab, the language.
    TextPlusDetectionsPlusLanguage,
}

/// The layout that `name` names, if it names one.
pub open spec fn format_named(name: Seq<char>) -> Option<InferenceDataFileFormat> {
    if name == "text"@ {
        Some(InferenceDataFileFormat::Text)
    } else if name == "text_detections"@ {
        Some(InferenceDataFileFormat::TextPlusDetections)
    } else if name == "text_language"@ {
        Some(InferenceDataFileFormat::TextPlusLanguage)
    } else if name == "text_detections_language"@ {
        Some(InferenceDataFileFormat::TextPlusDetectionsPlusLanguage)
    } else {
        None
    }
}

impl InferenceDataFileFormat {
    /// The layout that `name` names; `None` if it names none.
    pub fn from_name(name: &str) -> (out: Option<Self>)
        ensures
            out == format_named(name@),
    {
        if same_text(name, "text") {
            Some(InferenceDataFileFormat::Text)
        } else if same_text(name, "text_detections") {
            Some(InferenceDataFileFormat::TextPlusDetections)
        } else if same_text(name, "text_language") {
            Some(InferenceDataFileFormat::TextPlusLanguage)
        } else if same_text(name, "text_detections_language") {
            Some(InferenceDataFileFormat::TextPlusDetectionsPlusLanguage)
        } else {
            None
        }
    }

    /// The number of tab-separated fields of a line; `None` where the whole
    /// line is one text, tabs included.
    pub open spec fn field_count(self) -> Option<nat> {
        match self {
            InferenceDataFileFormat::Text => None,
            InferenceDataFileFormat::TextPlusDetections => Some(2),
            InferenceDataFileFormat::TextPlusLanguage => Some(2),
            InferenceDataFileFormat::TextPlusDetectionsPlusLanguage => Some(3),
        }
    }
}

/// A record to run inference on.
#[derive(Debug, PartialOrd, PartialEq, Ord, Eq, Hash)]
pub struct InferenceData {
    pub original: String,
    pub detections: Option<Vec<bool>>,
    pub language: Option<String>,
}

/// What an `InferenceData` holds, as plain sequences.
pub struct InferenceDataView {
    pub original: Seq<char>,
    pub detections: Option<Seq<bool>>,
    pub language: Option<Seq<char>>,
}

impl View for InferenceData {
    type V = InferenceDataView;

    open spec fn view(&self) -> InferenceDataView {
        InferenceDataView {
            original: self.original@,
            detections: opt_seq(self.detections),
            language: opt_text(self.language),
        }
    }
}

impl Clone for InferenceData {
    fn clone(&self) -> (out: Self)
        ensures
            out@ == self@,
    {
        let detections = match &self.detections {
            Some(d) => Some(copy_of(d)),
            None => None,
        };
        InferenceData {
            original: self.original.clone(),
            detections,
            language: copy_opt_text(&self.language),
        }
    }
}

/// The index of the first entry of `parts` that writes no byte, and the
/// number of entries if every entry writes one.
pub open spec fn first_unparsed(parts: Seq<Seq<char>>) -> nat
    decreases parts.len(),
{
    if parts.len() == 0 {
        0
    } else if parsed_u8(parts[0]) is None {
        0
    } else {
        1 + first_unparsed(parts.drop_first())
    }
}

proof fn lemma_first_unparsed(parts: Seq<Seq<char>>, k: int)
    requires
        0 <= k <= parts.len(),
        forall|j: int| 0 <= j < k ==> parsed_u8(#[trigger] parts[j]) is Some,
    ensures
        first_unparsed(parts) == k + first_unparsed(parts.subrange(k, parts.len() as int)),
    decreases k,
{
    if k > 0 {
        assert(parts.drop_first().subrange(k - 1, parts.len() - 1) =~= parts.subrange(
            k,
            parts.len() as int,
        ));
        assert forall|j: int| 0 <= j < k - 1 implies parsed_u8(
            #[trigger] parts.drop_first()[j],
        ) is Some by {
            assert(parts.drop_first()[j] == parts[j + 1]);
        }
        lemma_first_unparsed(parts.drop_first(), k - 1);
        assert(parts[0] == parts[0]);
    } else {
        assert(parts.subrange(0, parts.len() as int) =~= parts);
    }
}

/// The detections that a detections field writes: one entry for each of its
/// whitespace-separated parts, each a byte in decimal, which detects unless it
/// is 0. A part that is no such byte makes the field malformed; so does an
/// empty part, which two adjacent separators or an empty field give.
pub open spec fn parsed_detections(s: Seq<char>) -> Result<Seq<bool>, ParseError> {
    let parts = fields(s, Separator::Whitespace);
    let bad = first_unparsed(parts);
    if bad < parts.len() {
        Err(ParseError::Detection { position: bad as usize })
    } else {
        Ok(Seq::new(parts.len(), |i: int| parsed_u8(parts[i]).unwrap() != 0))
    }
}

/// The record that a line of the given layout writes.
pub open spec fn parsed_line(s: Seq<char>, format: InferenceDataFileFormat) -> Result<
    InferenceDataView,
    ParseError,
> {
    let parts = fields(s, Separator::Tab);
    match format {
        InferenceDataFileFormat::Text => Ok(
            InferenceDataView { original: trimmed(s), detections: None, language: None },
        ),
        InferenceDataFileFormat::TextPlusDetections => if parts.len() != 2 {
            Err(ParseError::FieldCount { expected: 2, found: parts.len() as usize })
        } else {
            match parsed_detections(parts[1]) {
                Err(e) => Err(e),
                Ok(d) => Ok(
                    InferenceDataView {
                        original: trimmed(parts[0]),
                        detections: Some(d),
                        language: None,
                    },
                ),
            }
        },
        InferenceDataFileFormat::TextPlusLanguage => if parts.len() != 2 {
            Err(ParseError::FieldCount { expected: 2, found: parts.len() as usize })
        } else {
            Ok(
                InferenceDataView {
                    original: trimmed(parts[0]),
                    detections: None,
                    language: Some(trimmed(parts[1])),
                },
            )
        },
        InferenceDataFileFormat::TextPlusDetectionsPlusLanguage => if parts.len() != 3 {
            Err(ParseError::FieldCount { expected: 3, found: parts.len() as usize })
        } else {
            match parsed_detections(parts[1]) {
                Err(e) => Err(e),
                Ok(d) => Ok(
                    InferenceDataView {
                        original: trimmed(parts[0]),
                        detections: Some(d),
                        language: Some(trimmed(parts[2])),
                    },
                ),
            }
        },
    }
}

/// The view of the outcome of reading a detections field.
pub open spec fn detections_outcome(r: Result<Vec<bool>, ParseError>) -> Result<
    Seq<bool>,
    ParseError,
> {
    match r {
        Ok(d) => Ok(d@),
        Err(e) => Err(e),
    }
}

/// The view of the outcome of reading a line.
pub open spec fn line_outcome(r: Result<InferenceData, ParseError>) -> Result<
    InferenceDataView,
    ParseError,
> {
    match r {
        Ok(d) => Ok(d@),
        Err(e) => Err(e),
    }
}

impl InferenceData {
    /// A record of the given parts.
    pub fn new(original: String, detections: Option<Vec<bool>>, language: Option<String>) -> (out:
        Self)
        ensures
            out.original == original,
            out.detections == detections,
            out.language == language,
    {
        InferenceData { original, detections, language }
    }

    /// Reads a detections field.
    pub fn parse_detections(s: &Vec<char>) -> (out: Result<Vec<bool>, ParseError>)
        ensures
            detections_outcome(out) == parsed_detections(s@),
    {
        let parts = split_fields(s, Separator::Whitespace);
        let ghost all = fields(s@, Separator::Whitespace);
        let mut detections: Vec<bool> = Vec::new();
        let mut i: usize = 0;
        while i < parts.len()
            invariant
                i <= parts.len(),
                texts(parts@) == all,
                all == fields(s@, Separator::Whitespace),
                detections@.len() == i,
                forall|j: int| 0 <= j < i ==> parsed_u8(#[trigger] all[j]) is Some,
                forall|j: int|
                    0 <= j < i ==> (#[trigger] detections@[j]) == (parsed_u8(all[j]).unwrap()
                        != 0),
            decreases parts.len() - i,
        {
            proof {
                assert(all[i as int] == parts@[i as int]@);
            }
            match parse_u8(&parts[i]) {
                Some(value) => {
                    detections.push(value != 0);
                },
                None => {
                    proof {
                        lemma_first_unparsed(all, i as int);
                        assert(all.subrange(i as int, all.len() as int)[0] == all[i as int]);
                    }
                    return Err(ParseError::Detection { position: i });
                },
            }
            i += 1;
        }
        proof {
            lemma_first_unparsed(all, all.len() as int);
            assert(detections@ =~= Seq::new(all.len(), |i: int| parsed_u8(all[i]).unwrap() != 0));
        }
        Ok(detections)
    }

    /// Reads one line of an inference file of the given layout.
    pub fn from_str(s: &str, format: &InferenceDataFileFormat) -> (out: Result<Self, ParseError>)
        ensures
            line_outcome(out) == parsed_line(s@, *format),
    {
        let line = chars_of(s);
        let parts = split_fields(&line, Separator::Tab);
        let ghost all = fields(s@, Separator::Tab);
        let expected: usize = match format {
            InferenceDataFileFormat::Text => {
                let original = string_of(&trim(&line));
                return Ok(InferenceData { original, detections: None, language: None });
            },
            InferenceDataFileFormat::TextPlusDetections => 2,
            InferenceDataFileFormat::TextPlusLanguage => 2,
            InferenceDataFileFormat::TextPlusDetectionsPlusLanguage => 3,
        };
        if parts.len() != expected {
            return Err(ParseError::FieldCount { expected, found: parts.len() });
        }
        proof {
            assert(all[0] == parts@[0]@);
            assert(all[1] == parts@[1]@);
            if expected == 3 {
                assert(all[2] == parts@[2]@);
            }
        }
        let detections = match format {
            InferenceDataFileFormat::TextPlusLanguage => None,
            _ => match Self::parse_detections(&parts[1]) {
                Ok(d) => Some(d),
                Err(e) => {
                    return Err(e);
                },
            },
        };
        let language = match format {
            InferenceDataFileFormat::TextPlusDetections => None,
            _ => Some(string_of(&trim(&parts[expected - 1]))),
        };
        let original = string_of(&trim(&parts[0]));
        Ok(InferenceData { original, detections, language })
    }
}

/// The bounds of a window in its text: where its context starts, where its
/// body starts and ends, and where its context ends.
pub type WindowBounds = (usize, usize, usize, usize);

/// An inference item: one window of a record, with its tokens.
#[derive(Debug)]
pub struct InferenceItem {
    pub data: InferenceData,
    pub tokenization: Tokenization,
    pub item_idx: usize,
    pub window_idx: usize,
    pub window: WindowBounds,
}

impl InferenceItem {
    /// An item of the given parts.
    pub fn new(
        data: InferenceData,
        tokenization: Tokenization,
        item_idx: usize,
        window_idx: usize,
        window: WindowBounds,
    ) -> (out: Self)
        ensures
            out.data == data,
            out.tokenization == tokenization,
            out.item_idx == item_idx,
            out.window_idx == window_idx,
            out.window == window,
    {
        InferenceItem { data, tokenization, item_idx, window_idx, window }
    }
}

impl ItemSize for InferenceItem {
    open spec fn spec_size(&self) -> nat {
        self.tokenization.token_ids@.len()
    }

    fn size(&self) -> (n: usize) {
        self.tokenization.token_ids.len()
    }
}


/// The labels of a batch as a dense array.
#[derive(Debug, PartialEq, Eq)]
pub enum LabelArray {
    /// One class for every item.
    Classes(Vec<i32>),
    /// One row of classes for every item.
    Groups(Grid<i32>),
}

/// A training batch as dense arrays.
#[derive(Debug, PartialEq, Eq)]
pub struct TensorizedBatch {
    pub token_ids: Grid<u32>,
    pub lengths: Vec<usize>,
    pub labels: LabelArray,
}

/// The value that fills label cells without a label.
pub const LABEL_PADDING: i32 = -1;

/// The token ids of each item.
pub open spec fn item_rows(items: Seq<Item>) -> Seq<Seq<u32>> {
    Seq::new(items.len(), |i: int| items[i].tokenization.token_ids@)
}

/// The token ids of each inference item.
pub open spec fn window_rows(items: Seq<InferenceItem>) -> Seq<Seq<u32>> {
    Seq::new(items.len(), |i: int| items[i].tokenization.token_ids@)
}

/// The number of columns of the label array of `items`: the largest number
/// of label groups among them.
pub open spec fn label_width(items: Seq<Item>) -> nat {
    seq_max(Seq::new(items.len(), |i: int| group_width(items[i].tokenization)))
}

/// The label row of a text: `prefix` cells of padding for the tokens that a
/// tokenizer puts in front, then the classes, then padding up to `width` cells.
pub open spec fn label_row(labels: Seq<i32>, prefix: nat, width: nat) -> Seq<i32> {
    Seq::new(
        width,
        |j: int|
            if prefix <= j < prefix + labels.len() {
                labels[j - prefix]
            } else {
                LABEL_PADDING
            },
    )
}

/// What keeps item `i` of `items` from being tensorized, if anything: a
/// sequence-to-sequence label; a label of another variant than that of the
/// first item; a sequence label that does not fit its row behind `prefix` cells.
pub open spec fn item_violation(items: Seq<Item>, i: int, prefix: nat) -> Option<ContractError> {
    match items[i].label {
        Label::Seq2Seq(_) => Some(ContractError::UnsupportedLabel { index: i as usize }),
        Label::Classification(_) => if items[0].label is Classification {
            None
        } else {
            Some(ContractError::MixedLabels { index: i as usize })
        },
        Label::SeqClassification(labels) => if !(items[0].label is SeqClassification) {
            Some(ContractError::MixedLabels { index: i as usize })
        } else if prefix + labels@.len() > label_width(items) {
            Some(ContractError::LabelTooLong { index: i as usize })
        } else {
            None
        },
    }
}

/// The batch can be tensorized: it is not empty, and nothing keeps any item from it.
pub open spec fn tensorizable(items: Seq<Item>, prefix: nat) -> bool {
    &&& items.len() > 0
    &&& forall|i: int| 0 <= i < items.len() ==> (#[trigger] item_violation(items, i, prefix)) is None
}

/// `e` is the first thing that keeps `items` from being tensorized: that
/// there is no item, or else the violation of the first item that has one.
pub open spec fn violates(items: Seq<Item>, prefix: nat, e: ContractError) -> bool {
    if items.len() == 0 {
        e == ContractError::EmptyBatch
    } else {
        exists|i: int|
            0 <= i < items.len() && item_violation(items, i, prefix) == Some(e) && forall|j: int|
                0 <= j < i ==> (#[trigger] item_violation(items, j, prefix)) is None
    }
}

impl LabelArray {
    /// The array lays out the labels of `items`: for classification labels
    /// one class per item; for sequence labels one `label_row` per item, of
    /// `label_width(items)` cells.
    pub open spec fn lays_out(&self, items: Seq<Item>, prefix: nat) -> bool {
        match self {
            LabelArray::Classes(classes) => {
                &&& classes@.len() == items.len()
                &&& forall|i: int|
                    0 <= i < items.len() ==> items[i].label == Label::Classification(
                        #[trigger] classes@[i],
                    )
            },
            LabelArray::Groups(grid) => {
                &&& grid.wf()
                &&& grid.rows == items.len()
                &&& grid.cols == label_width(items)
                &&& forall|i: int|
                    0 <= i < items.len() ==> (#[trigger] items[i]).label is SeqClassification
                &&& forall|i: int|
                    0 <= i < items.len() ==> #[trigger] grid.row(i) == label_row(
                        items[i].label->SeqClassification_0@,
                        prefix,
                        grid.cols as nat,
                    )
            },
        }
    }
}

impl TensorizedBatch {
    /// The arrays are those of `items`: the token ids padded with `pad` to
    /// a rectangle, and the labels laid out behind `prefix` cells.
    pub open spec fn tensorizes(&self, items: Seq<Item>, pad: u32, prefix: nat) -> bool {
        &&& tensorizable(items, prefix)
        &&& (TensorizedTokens { token_ids: self.token_ids, lengths: self.lengths }).pads(
            item_rows(items),
            pad,
        )
        &&& self.labels.lays_out(items, prefix)
    }
}

impl Batch<Item> {
    /// The tokenizations of the items, in their order.
    fn tokenizations(&self) -> (out: Vec<&Tokenization>)
        ensures
            out@.len() == self@.len(),
            forall|i: int| 0 <= i < self@.len() ==> *(#[trigger] out@[i]) == self@[i].tokenization,
    {
        let mut out: Vec<&Tokenization> = Vec::new();
        let mut i: usize = 0;
        while i < self.items.len()
            invariant
                i <= self.items.len(),
                out@.len() == i,
                forall|j: int| 0 <= j < i ==> *(#[trigger] out@[j]) == self@[j].tokenization,
            decreases self.items.len() - i,
        {
            out.push(&self.items[i].tokenization);
            i += 1;
        }
        out
    }

    /// The first thing that keeps the batch from being tensorized: that it is
    /// empty, or else the violation of the first item that has one.
    pub fn contract_violation(&self, num_prefix_tokens: usize) -> (out: Option<ContractError>)
        ensures
            out is None <==> tensorizable(self@, num_prefix_tokens as nat),
            out matches Some(e) ==> violates(self@, num_prefix_tokens as nat, e),
    {
        if self.items.len() == 0 {
            return Some(ContractError::EmptyBatch);
        }
        let tokenizations = self.tokenizations();
        let width = max_groups(&tokenizations);
        proof {
            assert(Seq::new(tokenizations@.len(), |i: int| group_width(*tokenizations@[i]))
                =~= Seq::new(self@.len(), |i: int| group_width(self@[i].tokenization)));
        }
        let first_is_class = match &self.items[0].label {
            Label::Classification(_) => true,
            _ => false,
        };
        let first_is_seq = match &self.items[0].label {
            Label::SeqClassification(_) => true,
            _ => false,
        };
        let mut i: usize = 0;
        while i < self.items.len()
            invariant
                i <= self.items.len(),
                self@.len() > 0,
                width == label_width(self@),
                first_is_class == (self@[0].label is Classification),
                first_is_seq == (self@[0].label is SeqClassification),
                forall|j: int|
                    0 <= j < i ==> (#[trigger] item_violation(
                        self@,
                        j,
                        num_prefix_tokens as nat,
                    )) is None,
            decreases self.items.len() - i,
        {
            let found = match &self.items[i].label {
                Label::Seq2Seq(_) => Some(ContractError::UnsupportedLabel { index: i }),
                Label::Classification(_) => if first_is_class {
                    None
                } else {
                    Some(ContractError::MixedLabels { index: i })
                },
                Label::SeqClassification(labels) => if !first_is_seq {
                    Some(ContractError::MixedLabels { index: i })
                } else if labels.len() > width || num_prefix_tokens > width - labels.len() {
                    Some(ContractError::LabelTooLong { index: i })
                } else {
                    None
                },
            };
            proof {
                assert(found == item_violation(self@, i as int, num_prefix_tokens as nat));
            }
            if found.is_some() {
                return found;
            }
            i += 1;
        }
        None
    }

    /// Pads the token ids of the items to a rectangle and lays out their labels.
    pub fn tensorize(&self, pad_token_id: u32, num_prefix_tokens: usize) -> (out: TensorizedBatch)
        requires
            tensorizable(self@, num_prefix_tokens as nat),
        ensures
            out.tensorizes(self@, pad_token_id, num_prefix_tokens as nat),
    {
        let tokenizations = self.tokenizations();
        let max_groups = max_groups(&tokenizations);
        proof {
            assert(Seq::new(tokenizations@.len(), |i: int| group_width(*tokenizations@[i]))
                =~= Seq::new(self@.len(), |i: int| group_width(self@[i].tokenization)));
            assert(token_rows(tokenizations@) =~= item_rows(self@));
        }
        let tokens = prepare(tokenizations, pad_token_id);
        let batch_size = self.len();
        proof {
            assert(item_violation(self@, 0, num_prefix_tokens as nat) is None);
        }
        let labels = match &self.items[0].label {
            Label::Classification(_) => {
                let mut classes: Vec<i32> = Vec::new();
                let mut i: usize = 0;
                while i < batch_size
                    invariant
                        i <= batch_size,
                        batch_size == self@.len(),
                        tensorizable(self@, num_prefix_tokens as nat),
                        self@[0].label is Classification,
                        classes@.len() == i,
                        forall|j: int|
                            0 <= j < i ==> self@[j].label == Label::Classification(
                                #[trigger] classes@[j],
                            ),
                    decreases batch_size - i,
                {
                    proof {
                        assert(item_violation(self@, i as int, num_prefix_tokens as nat) is None);
                    }
                    match &self.items[i].label {
                        Label::Classification(label) => {
                            classes.push(*label);
                        },
                        _ => {
                            proof {
                                assert(false);
                            }
                        },
                    }
                    i += 1;
                }
                LabelArray::Classes(classes)
            },
            _ => {
                let mut grid: Grid<i32> = Grid::new(max_groups);
                let mut i: usize = 0;
                while i < batch_size
                    invariant
                        i <= batch_size,
                        batch_size == self@.len(),
                        tensorizable(self@, num_prefix_tokens as nat),
                        self@[0].label is SeqClassification,
                        max_groups == label_width(self@),
                        grid.wf(),
                        grid.rows == i,
                        grid.cols == max_groups,
                        forall|j: int| 0 <= j < i ==> (#[trigger] self@[j]).label is SeqClassification,
                        forall|j: int|
                            0 <= j < i ==> #[trigger] grid.row(j) == label_row(
                                self@[j].label->SeqClassification_0@,
                                num_prefix_tokens as nat,
                                max_groups as nat,
                            ),
                    decreases batch_size - i,
                {
                    proof {
                        assert(item_violation(self@, i as int, num_prefix_tokens as nat) is None);
                    }
                    match &self.items[i].label {
                        Label::SeqClassification(labels) => {
                            let lead = repeat(LABEL_PADDING, num_prefix_tokens);
                            let body = copy_of(labels);
                            let rest = repeat(
                                LABEL_PADDING,
                                max_groups - (num_prefix_tokens + labels.len()),
                            );
                            proof {
                                lemma_concat_three(lead, body, rest);
                            }
                            let row = join(vec![lead, body, rest]);
                            proof {
                                assert(row@ =~= label_row(
                                    labels@,
                                    num_prefix_tokens as nat,
                                    max_groups as nat,
                                ));
                            }
                            let ghost before = grid;
                            grid.push_row(row);
                            proof {
                                assert forall|j: int| 0 <= j < i + 1 implies #[trigger] grid.row(j) == label_row(
                                    self@[j].label->SeqClassification_0@,
                                    num_prefix_tokens as nat,
                                    max_groups as nat,
                                ) by {
                                    if j < i {
                                        assert(grid.row(j) == before.row(j));
                                    } else {
                                        assert(grid.row(i as int) == row@);
                                    }
                                }
                            }
                        },
                        _ => {
                            proof {
                                assert(false);
                            }
                        },
                    }
                    i += 1;
                }
                LabelArray::Groups(grid)
            },
        };
        TensorizedBatch { token_ids: tokens.token_ids, lengths: tokens.lengths, labels }
    }

    /// Tensorizes the batch if nothing keeps it from that, and says what does otherwise.
    pub fn try_tensorize(&self, pad_token_id: u32, num_prefix_tokens: usize) -> (out: Result<
        TensorizedBatch,
        ContractError,
    >)
        ensures
            out is Ok <==> tensorizable(self@, num_prefix_tokens as nat),
            out matches Ok(t) ==> t.tensorizes(self@, pad_token_id, num_prefix_tokens as nat),
            out matches Err(e) ==> violates(self@, num_prefix_tokens as nat, e),
    {
        match self.contract_violation(num_prefix_tokens) {
            Some(e) => Err(e),
            None => Ok(self.tensorize(pad_token_id, num_prefix_tokens)),
        }
    }
}

impl Batch<InferenceItem> {
    /// The tokenizations of the items, in their order.
    fn tokenizations(&self) -> (out: Vec<&Tokenization>)
        ensures
            out@.len() == self@.len(),
            forall|i: int| 0 <= i < self@.len() ==> *(#[trigger] out@[i]) == self@[i].tokenization,
    {
        let mut out: Vec<&Tokenization> = Vec::new();
        let mut i: usize = 0;
        while i < self.items.len()
            invariant
                i <= self.items.len(),
                out@.len() == i,
                forall|j: int| 0 <= j < i ==> *(#[trigger] out@[j]) == self@[j].tokenization,
            decreases self.items.len() - i,
        {
            out.push(&self.items[i].tokenization);
            i += 1;
        }
        out
    }

    /// Pads the token ids of the items to a rectangle.
    pub fn tensorize(&self, pad_token_id: u32) -> (out: TensorizedTokens)
        requires
            self@.len() > 0,
        ensures
            out.pads(window_rows(self@), pad_token_id),
    {
        let tokenizations = self.tokenizations();
        proof {
            assert(token_rows(tokenizations@) =~= window_rows(self@));
        }
        prepare(tokenizations, pad_token_id)
    }
}


/// The configuration of a training pipeline: that of its preprocessing
/// steps, in their order, and that of its labeling.
#[derive(Debug)]
pub struct PreprocessingPipelineConfig<P, L> {
    pub preprocessing: Vec<P>,
    pub labeling: L,
}

impl<P: Clone, L: Clone> Clone for PreprocessingPipelineConfig<P, L> {
    fn clone(&self) -> (out: Self)
        ensures
            out.preprocessing@.len() == self.preprocessing@.len(),
    {
        PreprocessingPipelineConfig {
            preprocessing: self.preprocessing.clone(),
            labeling: self.labeling.clone(),
        }
    }
}

impl<P, L> PreprocessingPipelineConfig<P, L> {
    /// The configuration of the given steps and labeling.
    pub fn new(preprocessing: Vec<P>, labeling: L) -> (out: Self)
        ensures
            out.preprocessing == preprocessing,
            out.labeling == labeling,
    {
        PreprocessingPipelineConfig { preprocessing, labeling }
    }
}

/// What is applied to every item of a stream: a function of the item, of its
/// index in the stream and of a seed.
pub trait Transform<I, O> {
    /// Whether the transform can be applied to this input.
    spec fn accepts(&self, input: I, idx: usize, seed: Option<u64>) -> bool;

    /// Whether `out` is a result of the transform on this input.
    spec fn yields(&self, input: I, idx: usize, seed: Option<u64>, out: O) -> bool;

    /// Applies the transform.
    fn apply(&self, input: I, idx: usize, seed: Option<u64>) -> (out: O)
        requires
            self.accepts(input, idx, seed),
        ensures
            self.yields(input, idx, seed, out),
    ;
}

/// A transform given as a function.
pub struct Pipeline<F> {
    pub apply_fn: F,
}

impl<F> Pipeline<F> {
    /// The pipeline that applies `apply_fn`.
    pub fn new(apply_fn: F) -> (out: Self)
        ensures
            out.apply_fn == apply_fn,
    {
        Pipeline { apply_fn }
    }

    /// Applies the function of the pipeline.
    pub fn apply<I, O>(&self, input: I, idx: usize, seed: Option<u64>) -> (out: O) where
        F: Fn(I, usize, Option<u64>) -> O,

        requires
            call_requires(self.apply_fn, (input, idx, seed)),
        ensures
            call_ensures(self.apply_fn, (input, idx, seed), out),
    {
        (self.apply_fn)(input, idx, seed)
    }
}

impl<I, O, F: Fn(I, usize, Option<u64>) -> O> Transform<I, O> for Pipeline<F> {
    open spec fn accepts(&self, input: I, idx: usize, seed: Option<u64>) -> bool {
        call_requires(self.apply_fn, (input, idx, seed))
    }

    open spec fn yields(&self, input: I, idx: usize, seed: Option<u64>, out: O) -> bool {
        call_ensures(self.apply_fn, (input, idx, seed), out)
    }

    fn apply(&self, input: I, idx: usize, seed: Option<u64>) -> (out: O) {
        (self.apply_fn)(input, idx, seed)
    }
}


/// The pipeline of a training loader: a record is preprocessed, then
/// tokenized, then labeled.
pub struct TextDataPipeline<P, T, L> {
    pub preprocess: P,
    pub tokenize: T,
    pub label: L,
}

impl<P, T, L> TextDataPipeline<P, T, L> {
    /// The pipeline of the given preprocessing, tokenizer and labeling.
    pub fn with_tokenizer(preprocess: P, tokenize: T, label: L) -> (out: Self)
        ensures
            out.preprocess == preprocess,
            out.tokenize == tokenize,
            out.label == label,
    {
        TextDataPipeline { preprocess, tokenize, label }
    }
}

impl<
    E,
    P: Fn(TextData, Option<u64>) -> Result<TextData, E>,
    T: Fn(&String, &Option<String>) -> Tokenization,
    L: Fn(&TextData) -> Result<Label, E>,
> Transform<TextData, Result<Item, E>> for TextDataPipeline<P, T, L> {
    /// The record can be preprocessed, and whatever preprocessing makes of
    /// it can be tokenized and labeled.
    open spec fn accepts(&self, input: TextData, idx: usize, seed: Option<u64>) -> bool {
        &&& call_requires(self.preprocess, (input, seed))
        &&& forall|d: TextData| #[trigger]
            call_ensures(self.preprocess, (input, seed), Ok::<TextData, E>(d)) ==> call_requires(
                self.tokenize,
                (&d.processed, &d.language),
            ) && call_requires(self.label, (&d,))
    }

    /// An item holds what preprocessing made of the record, the tokens of
    /// its processed text and its label; an error is that of preprocessing
    /// the record, or that of labeling what preprocessing made of it.
    open spec fn yields(
        &self,
        input: TextData,
        idx: usize,
        seed: Option<u64>,
        out: Result<Item, E>,
    ) -> bool {
        match out {
            Ok(item) => {
                &&& call_ensures(self.preprocess, (input, seed), Ok::<TextData, E>(item.data))
                &&& call_ensures(
                    self.tokenize,
                    (&item.data.processed, &item.data.language),
                    item.tokenization,
                )
                &&& call_ensures(self.label, (&item.data,), Ok::<Label, E>(item.label))
            },
            Err(e) => {
                ||| call_ensures(self.preprocess, (input, seed), Err::<TextData, E>(e))
                ||| exists|d: TextData| #[trigger]
                    call_ensures(self.preprocess, (input, seed), Ok::<TextData, E>(d))
                        && call_ensures(self.label, (&d,), Err::<Label, E>(e))
            },
        }
    }

    fn apply(&self, input: TextData, idx: usize, seed: Option<u64>) -> (out: Result<Item, E>) {
        let data = match (self.preprocess)(input, seed) {
            Ok(d) => d,
            Err(e) => {
                return Err(e);
            },
        };
        let tokenization = (self.tokenize)(&data.processed, &data.language);
        match (self.label)(&data) {
            Ok(label) => Ok(Item { data, tokenization, label }),
            Err(e) => Err(e),
        }
    }
}

/// A window of a text: its text, and its bounds in the text it is cut from.
#[derive(Debug, PartialEq, Eq)]
pub struct Window {
    pub text: String,
    pub bounds: WindowBounds,
}

/// `items` are the inference items of the windows `windows` of record `data`.
pub open spec fn windowed<T: Fn(&String, &Option<String>) -> Tokenization>(
    items: Seq<InferenceItem>,
    data: InferenceData,
    idx: usize,
    windows: Seq<Window>,
    tokenize: T,
) -> bool {
    &&& items.len() == windows.len()
    &&& forall|k: int| 0 <= k < items.len() ==> (#[trigger] items[k]).data@ == data@
    &&& forall|k: int| 0 <= k < items.len() ==> (#[trigger] items[k]).item_idx == idx
    &&& forall|k: int| 0 <= k < items.len() ==> (#[trigger] items[k]).window_idx == k
    &&& forall|k: int| 0 <= k < items.len() ==> (#[trigger] items[k]).window == windows[k].bounds
    &&& forall|k: int|
        0 <= k < items.len() ==> call_ensures(
            tokenize,
            (&windows[k].text, &data.language),
            (#[trigger] items[k]).tokenization,
        )
}

/// Makes one inference item of every window of a record: window `k`
/// becomes the item with window index `k`, the index `idx` of the record, the
/// bounds of the window, the tokens of its text and a copy of the record.
pub fn window_items<T: Fn(&String, &Option<String>) -> Tokenization>(
    data: &InferenceData,
    idx: usize,
    windows: &Vec<Window>,
    tokenize: &T,
) -> (out: Vec<InferenceItem>)
    requires
        forall|k: int|
            0 <= k < windows@.len() ==> call_requires(
                *tokenize,
                (&(#[trigger] windows@[k]).text, &data.language),
            ),
    ensures
        windowed(out@, *data, idx, windows@, *tokenize),
{
    let mut out: Vec<InferenceItem> = Vec::new();
    let mut k: usize = 0;
    while k < windows.len()
        invariant
            k <= windows@.len(),
            out@.len() == k,
            forall|j: int|
                0 <= j < windows@.len() ==> call_requires(
                    *tokenize,
                    (&(#[trigger] windows@[j]).text, &data.language),
                ),
            forall|j: int| 0 <= j < k ==> (#[trigger] out@[j]).data@ == data@,
            forall|j: int| 0 <= j < k ==> (#[trigger] out@[j]).item_idx == idx,
            forall|j: int| 0 <= j < k ==> (#[trigger] out@[j]).window_idx == j,
            forall|j: int| 0 <= j < k ==> (#[trigger] out@[j]).window == windows@[j].bounds,
            forall|j: int|
                0 <= j < k ==> call_ensures(
                    *tokenize,
                    (&windows@[j].text, &data.language),
                    (#[trigger] out@[j]).tokenization,
                ),
        decreases windows@.len() - k,
    {
        let tokenization = tokenize(&windows[k].text, &data.language);
        out.push(InferenceItem::new(data.clone(), tokenization, idx, k, windows[k].bounds));
        k += 1;
    }
    out
}

/// The pipeline of an inference loader: the text of a record is cleaned,
/// cut into windows, and every window tokenized.
pub struct InferencePipeline<C, W, T> {
    pub clean: C,
    pub windows: W,
    pub tokenize: T,
}

impl<C, W, T> InferencePipeline<C, W, T> {
    /// The pipeline of the given cleaning, windowing and tokenizer.
    pub fn with_windows(clean: C, windows: W, tokenize: T) -> (out: Self)
        ensures
            out.clean == clean,
            out.windows == windows,
            out.tokenize == tokenize,
    {
        InferencePipeline { clean, windows, tokenize }
    }
}

impl<
    E,
    C: Fn(InferenceData) -> InferenceData,
    W: Fn(&InferenceData) -> Result<Vec<Window>, E>,
    T: Fn(&String, &Option<String>) -> Tokenization,
> Transform<InferenceData, Result<Vec<InferenceItem>, E>> for InferencePipeline<C, W, T> {
    /// The record can be cleaned, whatever cleaning makes of it can be cut
    /// into windows, and every text with a language can be tokenized.
    open spec fn accepts(&self, input: InferenceData, idx: usize, seed: Option<u64>) -> bool {
        &&& call_requires(self.clean, (input,))
        &&& forall|d: InferenceData| #[trigger]
            call_ensures(self.clean, (input,), d) ==> call_requires(self.windows, (&d,))
        &&& forall|text: String, language: Option<String>| #[trigger]
            call_requires(self.tokenize, (&text, &language))
    }

    /// The items are those of the windows of the cleaned record, in the
    /// order of the windows; an error is that of cutting it into windows.
    open spec fn yields(
        &self,
        input: InferenceData,
        idx: usize,
        seed: Option<u64>,
        out: Result<Vec<InferenceItem>, E>,
    ) -> bool {
        exists|d: InferenceData| #[trigger]
            call_ensures(self.clean, (input,), d) && match out {
                Err(e) => call_ensures(self.windows, (&d,), Err::<Vec<Window>, E>(e)),
                Ok(items) => exists|windows: Vec<Window>| #[trigger]
                    call_ensures(self.windows, (&d,), Ok::<Vec<Window>, E>(windows))
                        && windowed(items@, d, idx, windows@, self.tokenize),
            }
    }

    fn apply(&self, input: InferenceData, idx: usize, seed: Option<u64>) -> (out: Result<
        Vec<InferenceItem>,
        E,
    >) {
        let data = (self.clean)(input);
        match (self.windows)(&data) {
            Err(e) => Err(e),
            Ok(windows) => {
                let items = window_items(&data, idx, &windows, &self.tokenize);
                Ok(items)
            },
        }
    }
}



/// The values of the results that are no errors, in their order.
pub open spec fn oks<O, E>(results: Seq<Result<O, E>>) -> Seq<O>
    decreases results.len(),
{
    if results.len() == 0 {
        Seq::empty()
    } else {
        match results.last() {
            Ok(value) => oks(results.drop_last()).push(value),
            Err(_) => oks(results.drop_last()),
        }
    }
}

/// The last error among the results, if there is one.
pub open spec fn last_error<O, E>(results: Seq<Result<O, E>>) -> Option<E>
    decreases results.len(),
{
    if results.len() == 0 {
        None
    } else {
        match results.last() {
            Ok(_) => last_error(results.drop_last()),
            Err(e) => Some(e),
        }
    }
}

/// Drops the errors from `results`, and keeps the last of them aside.
pub fn keep_ok<O, E>(results: Vec<Result<O, E>>) -> (out: (Vec<O>, Option<E>))
    ensures
        out.0@ == oks(results@),
        out.1 == last_error(results@),
{
    let ghost all = results@;
    let mut values: Vec<O> = Vec::new();
    let mut error: Option<E> = None;
    proof {
        assert(all.take(0) =~= Seq::<Result<O, E>>::empty());
    }
    for result in it: results
        invariant
            it.seq() == all,
            values@ == oks(all.take(it.index() as int)),
            error == last_error(all.take(it.index() as int)),
    {
        proof {
            let next = all.take(it.index() as int + 1);
            assert(next.drop_last() =~= all.take(it.index() as int));
            assert(next.last() == result);
        }
        match result {
            Ok(value) => {
                values.push(value);
            },
            Err(e) => {
                error = Some(e);
            },
        }
    }
    proof {
        assert(all.take(all.len() as int) =~= all);
    }
    (values, error)
}

/// The number of batches that a loader prepares ahead, where none is asked for.
pub const DEFAULT_BUFFER_SIZE: usize = 128;

/// The limit of a batch, where none is asked for.
pub const DEFAULT_BATCH_LIMIT: usize = 16;

/// The prefetch factor, where none is asked for.
pub const DEFAULT_PREFETCH_FACTOR: usize = 4;

/// What is wrong with the sources of a loader, if anything: there is none,
/// or languages are given and not one for every source.
pub open spec fn sources_error(sources: nat, languages: Option<nat>) -> Option<ConfigError> {
    if sources == 0 {
        Some(ConfigError::NoSources)
    } else if languages is Some && languages->0 != sources {
        Some(
            ConfigError::LanguageCount {
                sources: sources as usize,
                languages: languages->0 as usize,
            },
        )
    } else {
        None
    }
}

/// The number of languages, if languages are given.
pub open spec fn language_count(languages: Option<Vec<String>>) -> Option<nat> {
    match languages {
        Some(l) => Some(l@.len()),
        None => None,
    }
}

/// Checks that there is a source, and a language for every source if languages are given.
pub fn check_sources(sources: usize, languages: &Option<Vec<String>>) -> (out: Option<ConfigError>)
    ensures
        out == sources_error(sources as nat, language_count(*languages)),
{
    if sources == 0 {
        return Some(ConfigError::NoSources);
    }
    match languages {
        Some(l) => if l.len() != sources {
            Some(ConfigError::LanguageCount { sources, languages: l.len() })
        } else {
            None
        },
        None => None,
    }
}

/// The language of source `idx`, if languages are given.
pub fn language_of(languages: &Option<Vec<String>>, idx: usize) -> (out: Option<String>)
    requires
        languages matches Some(l) ==> idx < l@.len(),
    ensures
        opt_text(out) == (match languages {
            Some(l) => Some(l@[idx as int]@),
            None => None,
        }),
{
    match languages {
        Some(l) => Some(l[idx].clone()),
        None => None,
    }
}

/// The seed of an epoch: the seed plus the epoch, wrapping around.
pub open spec fn epoch_seed(seed: Option<u64>, epoch: usize) -> Option<u64> {
    match seed {
        Some(s) => Some(((s + epoch) % 0x1_0000_0000_0000_0000) as u64),
        None => None,
    }
}

/// The items that `plan` reads from `stream`, in their order.
pub open spec fn shard_of<T>(stream: Seq<T>, plan: ShardPlan) -> Seq<T> {
    Seq::new(plan.count(stream.len() as int) as nat, |k: int| stream[plan.index(k)])
}


/// What is wrong with the arguments of a training loader, if anything:
/// what is wrong for its batcher, before a number of threads that is not
/// from 1 to 64, before a rank that is not below the world size.
pub open spec fn loader_config_error(
    num_threads: u8,
    batch_limit: usize,
    shuffle: bool,
    sort: bool,
    seed: Option<u64>,
    distributed: Option<(usize, usize)>,
) -> Option<ConfigError> {
    let (rank, world_size) = match distributed {
        Some(d) => d,
        None => (0usize, 1usize),
    };
    if batcher_config_error(sort, shuffle, batch_limit, seed) is Some {
        batcher_config_error(sort, shuffle, batch_limit, seed)
    } else if num_threads < 1 || num_threads > MAX_WORKERS {
        Some(ConfigError::WorkerCount { workers: num_threads as usize })
    } else if rank >= world_size {
        Some(ConfigError::InvalidRank { rank, world_size })
    } else {
        None
    }
}

/// What a training loader is set to.
pub struct DataLoaderView {
    pub files: Vec<String>,
    pub languages: Option<Vec<String>>,
    pub strategy: TextIterationStrategy,
    pub num_threads: u8,
    pub buffer_size: usize,
    pub batch_limit: usize,
    pub batch_limit_type: BatchLimitType,
    pub epoch: usize,
    pub fast_forward: usize,
    pub limit: usize,
    pub skip: usize,
    pub rank: usize,
    pub world_size: usize,
    pub seed: Option<u64>,
    pub shuffle: bool,
    pub prefetch_factor: usize,
    pub sort: bool,
    pub min_items: Option<usize>,
}

impl DataLoaderView {
    /// The settings of a new loader: epoch 0, no fast-forward, nothing
    /// announced; without `limit` the largest limit; without `distributed` one
    /// process of rank 0; a prefetch factor of 0 counts as 1.
    pub open spec fn initial(
        files: Vec<String>,
        languages: Option<Vec<String>>,
        strategy: TextIterationStrategy,
        num_threads: u8,
        buffer_size: usize,
        batch_limit: usize,
        batch_limit_type: BatchLimitType,
        shuffle: bool,
        prefetch_factor: usize,
        sort: bool,
        seed: Option<u64>,
        skip: usize,
        limit: Option<usize>,
        distributed: Option<(usize, usize)>,
    ) -> DataLoaderView {
        DataLoaderView {
            files,
            languages,
            strategy,
            num_threads,
            buffer_size,
            batch_limit,
            batch_limit_type,
            epoch: 0,
            fast_forward: 0,
            limit: match limit {
                Some(l) => l,
                None => usize::MAX,
            },
            skip,
            rank: match distributed {
                Some(d) => d.0,
                None => 0,
            },
            world_size: match distributed {
                Some(d) => d.1,
                None => 1,
            },
            seed,
            shuffle,
            prefetch_factor: if prefetch_factor == 0 {
                1
            } else {
                prefetch_factor
            },
            sort,
            min_items: None,
        }
    }

    /// The settings are valid.
    pub open spec fn valid(&self) -> bool {
        &&& batcher_config_error(self.sort, self.shuffle, self.batch_limit, self.seed) is None
        &&& 1 <= self.num_threads <= MAX_WORKERS
        &&& self.rank < self.world_size
        &&& self.prefetch_factor >= 1
    }

    /// The seed of the current epoch.
    pub open spec fn seed_of_epoch(&self) -> Option<u64> {
        epoch_seed(self.seed, self.epoch)
    }

    /// The items that this process reads.
    pub open spec fn shard_plan(&self) -> ShardPlan {
        ShardPlan {
            limit: self.limit,
            skip: self.skip,
            fast_forward: self.fast_forward,
            rank: self.rank,
            world_size: self.world_size,
        }
    }

    /// How the items are batched in the current epoch.
    pub open spec fn batcher_params(&self) -> BatcherParams {
        BatcherParams {
            sort: self.sort,
            shuffle: self.shuffle,
            prefetch_factor: self.prefetch_factor as nat,
            limit: self.batch_limit as nat,
            limit_type: self.batch_limit_type,
            seed: self.seed_of_epoch(),
        }
    }
}

/// A loader of training batches: the settings from which every epoch is set up.
#[derive(Debug)]
pub struct DataLoader {
    files: Vec<String>,
    languages: Option<Vec<String>>,
    strategy: TextIterationStrategy,
    num_threads: u8,
    buffer_size: usize,
    batch_limit: usize,
    batch_limit_type: BatchLimitType,
    epoch: usize,
    fast_forward: usize,
    limit: usize,
    skip: usize,
    rank: usize,
    world_size: usize,
    seed: Option<u64>,
    shuffle: bool,
    prefetch_factor: usize,
    sort: bool,
    min_items: Option<usize>,
}

impl View for DataLoader {
    type V = DataLoaderView;

    closed spec fn view(&self) -> DataLoaderView {
        DataLoaderView {
            files: self.files,
            languages: self.languages,
            strategy: self.strategy,
            num_threads: self.num_threads,
            buffer_size: self.buffer_size,
            batch_limit: self.batch_limit,
            batch_limit_type: self.batch_limit_type,
            epoch: self.epoch,
            fast_forward: self.fast_forward,
            limit: self.limit,
            skip: self.skip,
            rank: self.rank,
            world_size: self.world_size,
            seed: self.seed,
            shuffle: self.shuffle,
            prefetch_factor: self.prefetch_factor,
            sort: self.sort,
            min_items: self.min_items,
        }
    }
}

/// What is set up for one epoch: its seed, the items that this process
/// reads, and how they are batched.
pub struct EpochPlan {
    pub seed: Option<u64>,
    pub shard: ShardPlan,
    pub batcher: BatcherConfig,
}

impl DataLoader {
    #[verifier::type_invariant]
    spec fn inv(&self) -> bool {
        self@.valid()
    }

    /// A loader with the given settings, at epoch 0 and without fast-forward.
    /// Without `limit` every item is read; without `distributed` there is one
    /// process, of rank 0; a prefetch factor of 0 counts as 1.
    pub fn new(
        files: Vec<String>,
        languages: Option<Vec<String>>,
        strategy: TextIterationStrategy,
        num_threads: u8,
        buffer_size: usize,
        batch_limit: usize,
        batch_limit_type: BatchLimitType,
        shuffle: bool,
        prefetch_factor: usize,
        sort: bool,
        seed: Option<u64>,
        skip: usize,
        limit: Option<usize>,
        distributed: Option<(usize, usize)>,
    ) -> (out: Result<Self, ConfigError>)
        ensures
            out matches Err(e) ==> loader_config_error(
                num_threads,
                batch_limit,
                shuffle,
                sort,
                seed,
                distributed,
            ) == Some(e),
            out matches Ok(loader) ==> loader_config_error(
                num_threads,
                batch_limit,
                shuffle,
                sort,
                seed,
                distributed,
            ) is None && loader@.valid() && loader@ == DataLoaderView::initial(
                files,
                languages,
                strategy,
                num_threads,
                buffer_size,
                batch_limit,
                batch_limit_type,
                shuffle,
                prefetch_factor,
                sort,
                seed,
                skip,
                limit,
                distributed,
            ),
    {
        if shuffle && seed.is_none() {
            return Err(ConfigError::ShuffleWithoutSeed);
        }
        if sort && !shuffle {
            return Err(ConfigError::SortWithoutShuffle);
        }
        if batch_limit == 0 {
            return Err(ConfigError::ZeroBatchLimit);
        }
        if num_threads < 1 || num_threads > 64 {
            return Err(ConfigError::WorkerCount { workers: num_threads as usize });
        }
        let prefetch_factor = if prefetch_factor == 0 {
            1
        } else {
            prefetch_factor
        };
        let (rank, world_size) = match distributed {
            Some(d) => d,
            None => (0, 1),
        };
        if rank >= world_size {
            return Err(ConfigError::InvalidRank { rank, world_size });
        }
        let limit = match limit {
            Some(l) => l,
            None => usize::MAX,
        };
        Ok(
            DataLoader {
                files,
                languages,
                strategy,
                num_threads,
                buffer_size,
                batch_limit,
                batch_limit_type,
                epoch: 0,
                fast_forward: 0,
                limit,
                skip,
                rank,
                world_size,
                seed,
                shuffle,
                prefetch_factor,
                sort,
                min_items: None,
            },
        )
    }

    /// A loader over files: there has to be a file, and a language for
    /// every file if languages are given; the other settings are checked as
    /// by `new`.
    pub fn from_files(
        files: Vec<String>,
        languages: Option<Vec<String>>,
        strategy: TextIterationStrategy,
        num_threads: u8,
        buffer_size: usize,
        batch_limit: usize,
        batch_limit_type: BatchLimitType,
        shuffle: bool,
        prefetch_factor: usize,
        sort: bool,
        seed: Option<u64>,
        skip: usize,
        limit: Option<usize>,
        distributed: Option<(usize, usize)>,
    ) -> (out: Result<Self, ConfigError>)
        ensures
            out is Ok <==> sources_error(files@.len(), language_count(languages)) is None
                && loader_config_error(num_threads, batch_limit, shuffle, sort, seed, distributed)
                is None,
            out matches Err(e) ==> Some(e) == (if sources_error(
                files@.len(),
                language_count(languages),
            ) is Some {
                sources_error(files@.len(), language_count(languages))
            } else {
                loader_config_error(num_threads, batch_limit, shuffle, sort, seed, distributed)
            }),
            out matches Ok(loader) ==> loader@.valid() && loader@ == DataLoaderView::initial(
                files,
                languages,
                strategy,
                num_threads,
                buffer_size,
                batch_limit,
                batch_limit_type,
                shuffle,
                prefetch_factor,
                sort,
                seed,
                skip,
                limit,
                distributed,
            ),
    {
        match check_sources(files.len(), &languages) {
            Some(e) => {
                return Err(e);
            },
            None => {},
        }
        Self::new(
            files,
            languages,
            strategy,
            num_threads,
            buffer_size,
            batch_limit,
            batch_limit_type,
            shuffle,
            prefetch_factor,
            sort,
            seed,
            skip,
            limit,
            distributed,
        )
    }

    /// Moves the loader to another epoch.
    pub fn set_epoch(&mut self, epoch: usize)
        ensures
            final(self)@ == (DataLoaderView { epoch, ..old(self)@ }),
    {
        proof {
            use_type_invariant(&*self);
        }
        self.epoch = epoch;
    }

    /// Sets the number of items that the next epoch passes over beyond the skipped ones.
    pub fn set_fast_forward(&mut self, num_items: usize)
        ensures
            final(self)@ == (DataLoaderView { fast_forward: num_items, ..old(self)@ }),
    {
        proof {
            use_type_invariant(&*self);
        }
        self.fast_forward = num_items;
    }

    /// How the sources are mixed.
    pub fn strategy(&self) -> (out: TextIterationStrategy)
        ensures
            out.weights() == self@.strategy.weights(),
            out is Sequential == self@.strategy is Sequential,
            out is Interleaved == self@.strategy is Interleaved,
    {
        self.strategy.clone()
    }

    /// The number of items announced for the epoch that was set up last.
    pub fn min_items(&self) -> (out: Option<usize>)
        ensures
            out == self@.min_items,
    {
        self.min_items
    }

    /// The number of threads of the pipeline stage.
    pub fn num_threads(&self) -> (out: u8)
        ensures
            out == self@.num_threads,
            1 <= out <= MAX_WORKERS,
    {
        proof {
            use_type_invariant(self);
        }
        self.num_threads
    }

    /// The number of batches that are prepared ahead.
    pub fn buffer_size(&self) -> (out: usize)
        ensures
            out == self@.buffer_size,
    {
        self.buffer_size
    }

    /// The seed of the current epoch.
    pub fn seed_of_epoch(&self) -> (out: Option<u64>)
        ensures
            out == self@.seed_of_epoch(),
    {
        match self.seed {
            Some(s) => Some(s.wrapping_add(self.epoch as u64)),
            None => None,
        }
    }

    /// Sets up an epoch over a stream of at least `min_len` items: announces
    /// the number of items, and gives the seed, the items that this process
    /// reads and the batching of the epoch.
    pub fn init_iter(&mut self, min_len: usize) -> (out: EpochPlan)
        ensures
            final(self)@ == (DataLoaderView {
                min_items: Some(old(self)@.shard_plan().min_items_of(min_len as int) as usize),
                ..old(self)@
            }),
            out.seed == old(self)@.seed_of_epoch(),
            out.shard == old(self)@.shard_plan(),
            out.shard.wf(),
            out.batcher@ == old(self)@.batcher_params(),
    {
        proof {
            use_type_invariant(&*self);
        }
        let seed = self.seed_of_epoch();
        let shard = ShardPlan {
            limit: self.limit,
            skip: self.skip,
            fast_forward: self.fast_forward,
            rank: self.rank,
            world_size: self.world_size,
        };
        self.min_items = Some(shard.min_items(min_len));
        match BatcherConfig::new(
            self.sort,
            self.shuffle,
            self.prefetch_factor,
            self.batch_limit,
            self.batch_limit_type,
            seed,
        ) {
            Ok(batcher) => EpochPlan { seed, shard, batcher },
            Err(_) => vstd::pervasive::unreached(),
        }
    }
}


/// `results` are results of `pipeline` on `items`, each item taken with
/// its index and the seed.
pub open spec fn piped<I, O, X: Transform<I, O>>(
    items: Seq<I>,
    pipeline: X,
    seed: Option<u64>,
    results: Seq<O>,
) -> bool {
    &&& results.len() == items.len()
    &&& forall|i: int|
        0 <= i < items.len() ==> pipeline.yields(items[i], i as usize, seed, #[trigger] results[i])
}

/// Why a loader yields no batches.
#[derive(Debug, PartialEq, Eq)]
pub enum LoadError<E> {
    /// The sources do not fit the settings of the loader.
    Config(ConfigError),
    /// A batch cannot be tensorized.
    Contract(ContractError),
    /// No record made it into a batch; this is the error of the last one that failed.
    Record(E),
}

/// A training batch with its arrays.
#[derive(Debug)]
pub struct DataBatch {
    pub batch: Batch<Item>,
    pub tensorized: TensorizedBatch,
}

impl DataBatch {
    /// The number of items of the batch.
    pub fn len(&self) -> (n: usize)
        ensures
            n == self.batch@.len(),
    {
        self.batch.len()
    }
}

/// The records that this process reads from `sources`, which hold a record
/// or the failure to read one at every place: the places are mixed into one
/// stream, the process reads its share of it, failures included, and the
/// failures are dropped.
pub open spec fn records_read<E>(view: DataLoaderView, sources: Seq<Seq<Result<TextData, E>>>) -> Seq<
    TextData,
> {
    oks(shard_of(mixed_stream(sources, view.strategy, view.seed_of_epoch()), view.shard_plan()))
}

/// The failure that a training loader keeps aside: the last one of the
/// pipeline, or without one the last failure to read a record.
pub open spec fn failure_kept<E>(
    view: DataLoaderView,
    sources: Seq<Seq<Result<TextData, E>>>,
    results: Seq<Result<Item, E>>,
) -> Option<E> {
    match last_error(results) {
        Some(e) => Some(e),
        None => last_error(
            shard_of(
                mixed_stream(sources, view.strategy, view.seed_of_epoch()),
                view.shard_plan(),
            ),
        ),
    }
}

/// What a training loader yields for `sources`, if `results` is what the
/// pipeline makes of the records that this process reads: the records that
/// fail in the pipeline are dropped, and the others are batched and every
/// batch is tensorized. A batch that cannot be tensorized ends the loading
/// with the first thing that keeps it from that; and where no record makes it
/// into a batch although one failed, the failure kept aside is the outcome.
pub open spec fn loaded<E, X: Transform<TextData, Result<Item, E>>>(
    view: DataLoaderView,
    sources: Seq<Seq<Result<TextData, E>>>,
    pipeline: X,
    pad: u32,
    prefix: nat,
    results: Seq<Result<Item, E>>,
    out: Result<Vec<DataBatch>, LoadError<E>>,
) -> bool {
    let seed = view.seed_of_epoch();
    let groups = batches_of(oks(results), view.batcher_params());
    &&& piped(records_read(view, sources), pipeline, seed, results)
    &&& match out {
        Ok(batches) => {
            &&& groups.len() == 0 ==> failure_kept(view, sources, results) is None
            &&& batches@.len() == groups.len()
            &&& forall|b: int|
                0 <= b < batches@.len() ==> (#[trigger] batches@[b]).batch@ == groups[b]
            &&& forall|b: int|
                0 <= b < batches@.len() ==> (#[trigger] batches@[b]).tensorized.tensorizes(
                    groups[b],
                    pad,
                    prefix,
                )
        },
        Err(LoadError::Record(e)) => groups.len() == 0 && failure_kept(view, sources, results)
            == Some(e),
        Err(LoadError::Contract(e)) => exists|b: int|
            0 <= b < groups.len() && violates(#[trigger] groups[b], prefix, e) && forall|c: int|
                0 <= c < b ==> tensorizable(#[trigger] groups[c], prefix),
        Err(LoadError::Config(_)) => false,
    }
}

impl DataLoader {
    /// Loads one epoch from sources held in memory, which hold a record or
    /// the failure to read one at every place.
    #[verifier::loop_isolation(false)]
    pub fn load<E, X: Transform<TextData, Result<Item, E>>>(
        &mut self,
        sources: Vec<Vec<Result<TextData, E>>>,
        pipeline: &X,
        pad_token_id: u32,
        num_prefix_tokens: usize,
    ) -> (out: Result<Vec<DataBatch>, LoadError<E>>)
        requires
            forall|d: TextData, i: usize| #[trigger]
                pipeline.accepts(d, i, old(self)@.seed_of_epoch()),
        ensures
            sources@.len() == 0 ==> out == Err::<Vec<DataBatch>, LoadError<E>>(
                LoadError::Config(ConfigError::NoSources),
            ) && final(self)@ == old(self)@,
            sources@.len() > 0 && !old(self)@.strategy.fits(sources@.len()) ==> out == Err::<
                Vec<DataBatch>,
                LoadError<E>,
            >(LoadError::Config(ConfigError::Weights)) && final(self)@ == old(self)@,
            sources@.len() > 0 && old(self)@.strategy.fits(sources@.len()) ==> final(self)@ == (
            DataLoaderView {
                min_items: Some(
                    old(self)@.shard_plan().min_items_of(
                        saturated(
                            strategy_min_len(
                                source_lengths(source_views(sources@)),
                                old(self)@.strategy,
                            ),
                        ) as int,
                    ) as usize,
                ),
                ..old(self)@
            }) && exists|results: Seq<Result<Item, E>>| #[trigger]
                loaded(
                    old(self)@,
                    source_views(sources@),
                    *pipeline,
                    pad_token_id,
                    num_prefix_tokens as nat,
                    results,
                    out,
                ),
    {
        proof {
            use_type_invariant(&*self);
        }
        let ghost view = self@;
        let ghost src = source_views(sources@);
        if sources.len() == 0 {
            return Err(LoadError::Config(ConfigError::NoSources));
        }
        if !self.strategy.check(sources.len()) {
            return Err(LoadError::Config(ConfigError::Weights));
        }
        let mut lens: Vec<usize> = Vec::new();
        let mut s: usize = 0;
        while s < sources.len()
            invariant
                s <= sources@.len(),
                lens@.len() == s,
                forall|i: int| 0 <= i < s ==> (#[trigger] lens@[i]) == sources@[i]@.len(),
            decreases sources@.len() - s,
        {
            lens.push(sources[s].len());
            s += 1;
        }
        proof {
            assert(nats(lens@) =~= source_lengths(src));
        }
        let lower = min_len(&lens, &self.strategy);
        let plan = self.init_iter(lower);
        let stream = mix(sources, &self.strategy, plan.seed);
        let ghost whole = stream@;
        let selected = plan.shard.select(stream);
        proof {
            assert(selected@ =~= shard_of(whole, plan.shard));
        }
        let (records, read_error) = keep_ok(selected);
        let results = pipe(records, pipeline, plan.seed);
        let ghost outcomes = results@;
        let (items, pipeline_error) = keep_ok(results);
        let error = match pipeline_error {
            Some(e) => Some(e),
            None => read_error,
        };
        let batches = batched(items, &plan.batcher);
        let ghost groups = batch_views(batches@);
        if batches.len() == 0 {
            match error {
                Some(e) => {
                    proof {
                        assert(loaded(
                            view,
                            src,
                            *pipeline,
                            pad_token_id,
                            num_prefix_tokens as nat,
                            outcomes,
                            Err::<Vec<DataBatch>, LoadError<E>>(LoadError::Record(e)),
                        ));
                    }
                    return Err(LoadError::Record(e));
                },
                None => {},
            }
        }
        let mut out: Vec<DataBatch> = Vec::new();
        for batch in it: batches
            invariant
                it.seq().len() == groups.len(),
                groups == batch_views(it.seq()),
                out@.len() == it.index(),
                forall|b: int| 0 <= b < out@.len() ==> (#[trigger] out@[b]).batch@ == groups[b],
                forall|b: int|
                    0 <= b < out@.len() ==> (#[trigger] out@[b]).tensorized.tensorizes(
                        groups[b],
                        pad_token_id,
                        num_prefix_tokens as nat,
                    ),
                groups == batches_of(oks(outcomes), view.batcher_params()),
                piped(records_read(view, src), *pipeline, view.seed_of_epoch(), outcomes),
        {
            proof {
                assert(groups[it.index() as int] == batch@);
            }
            match batch.try_tensorize(pad_token_id, num_prefix_tokens) {
                Ok(tensorized) => {
                    out.push(DataBatch { batch, tensorized });
                },
                Err(e) => {
                    proof {
                        assert forall|c: int| 0 <= c < it.index() implies tensorizable(
                            #[trigger] groups[c],
                            num_prefix_tokens as nat,
                        ) by {
                            assert(out@[c].tensorized.tensorizes(
                                groups[c],
                                pad_token_id,
                                num_prefix_tokens as nat,
                            ));
                        }
                        assert(violates(groups[it.index() as int], num_prefix_tokens as nat, e));
                        assert(loaded(
                            view,
                            src,
                            *pipeline,
                            pad_token_id,
                            num_prefix_tokens as nat,
                            outcomes,
                            Err::<Vec<DataBatch>, LoadError<E>>(LoadError::Contract(e)),
                        ));
                    }
                    return Err(LoadError::Contract(e));
                },
            }
        }
        proof {
            assert(loaded(
                view,
                src,
                *pipeline,
                pad_token_id,
                num_prefix_tokens as nat,
                outcomes,
                Ok::<Vec<DataBatch>, LoadError<E>>(out),
            ));
        }
        Ok(out)
    }
}


/// The first error among the results, if there is one.
pub open spec fn first_error<O, E>(results: Seq<Result<O, E>>) -> Option<E>
    decreases results.len(),
{
    if results.len() == 0 {
        None
    } else {
        match first_error(results.drop_last()) {
            Some(e) => Some(e),
            None => match results.last() {
                Ok(_) => None,
                Err(e) => Some(e),
            },
        }
    }
}

/// The values of the results in front of the first error, in their order.
pub open spec fn before_error<O, E>(results: Seq<Result<O, E>>) -> Seq<O>
    decreases results.len(),
{
    if results.len() == 0 {
        Seq::empty()
    } else if first_error(results.drop_last()) is Some {
        before_error(results.drop_last())
    } else {
        match results.last() {
            Ok(value) => before_error(results.drop_last()).push(value),
            Err(_) => before_error(results.drop_last()),
        }
    }
}

/// Keeps the results in front of the first error, and that error aside.
pub fn until_error<O, E>(results: Vec<Result<O, E>>) -> (out: (Vec<O>, Option<E>))
    ensures
        out.0@ == before_error(results@),
        out.1 == first_error(results@),
{
    let ghost all = results@;
    let mut values: Vec<O> = Vec::new();
    let mut error: Option<E> = None;
    proof {
        assert(all.take(0) =~= Seq::<Result<O, E>>::empty());
    }
    for result in it: results
        invariant
            it.seq() == all,
            values@ == before_error(all.take(it.index() as int)),
            error == first_error(all.take(it.index() as int)),
    {
        proof {
            let next = all.take(it.index() as int + 1);
            assert(next.drop_last() =~= all.take(it.index() as int));
            assert(next.last() == result);
        }
        if error.is_none() {
            match result {
                Ok(value) => {
                    values.push(value);
                },
                Err(e) => {
                    error = Some(e);
                },
            }
        }
    }
    proof {
        assert(all.take(all.len() as int) =~= all);
    }
    (values, error)
}

/// What is wrong with the arguments of an inference loader, if anything:
/// that there is no source, before what is wrong for its batcher, which does
/// not shuffle, before a number of threads that is not from 1 to 64.
pub open spec fn inference_config_error(
    sources: nat,
    num_threads: u8,
    batch_limit: usize,
    sort: bool,
) -> Option<ConfigError> {
    if sources == 0 {
        Some(ConfigError::NoSources)
    } else if batcher_config_error(sort, false, batch_limit, None) is Some {
        batcher_config_error(sort, false, batch_limit, None)
    } else if num_threads < 1 || num_threads > MAX_WORKERS {
        Some(ConfigError::WorkerCount { workers: num_threads as usize })
    } else {
        None
    }
}

/// What an inference loader is set to.
pub struct InferenceLoaderView {
    pub num_threads: u8,
    pub buffer_size: usize,
    pub batch_limit: usize,
    pub batch_limit_type: BatchLimitType,
    pub prefetch_factor: usize,
    pub sort: bool,
    pub min_items: usize,
    pub splits: Seq<usize>,
}

impl InferenceLoaderView {
    /// The settings of a new loader over sources of at least `splits[i]`
    /// records each: it announces the sum of these numbers, and a prefetch
    /// factor of 0 counts as 1.
    pub open spec fn initial(
        splits: Seq<usize>,
        num_threads: u8,
        buffer_size: usize,
        batch_limit: usize,
        batch_limit_type: BatchLimitType,
        prefetch_factor: usize,
        sort: bool,
    ) -> InferenceLoaderView {
        InferenceLoaderView {
            num_threads,
            buffer_size,
            batch_limit,
            batch_limit_type,
            prefetch_factor: if prefetch_factor == 0 {
                1
            } else {
                prefetch_factor
            },
            sort,
            min_items: saturated(total(nats(splits))),
            splits,
        }
    }

    /// The settings are valid.
    pub open spec fn valid(&self) -> bool {
        &&& self.splits.len() > 0
        &&& batcher_config_error(self.sort, false, self.batch_limit, None) is None
        &&& 1 <= self.num_threads <= MAX_WORKERS
        &&& self.prefetch_factor >= 1
        &&& self.min_items == saturated(total(nats(self.splits)))
    }

    /// How the items are batched.
    pub open spec fn batcher_params(&self) -> BatcherParams {
        BatcherParams {
            sort: self.sort,
            shuffle: false,
            prefetch_factor: self.prefetch_factor as nat,
            limit: self.batch_limit as nat,
            limit_type: self.batch_limit_type,
            seed: None,
        }
    }
}

/// A loader of inference batches.
#[derive(Debug)]
pub struct InferenceLoader {
    num_threads: u8,
    buffer_size: usize,
    batch_limit: usize,
    batch_limit_type: BatchLimitType,
    prefetch_factor: usize,
    sort: bool,
    min_items: usize,
    splits: Vec<usize>,
}

impl View for InferenceLoader {
    type V = InferenceLoaderView;

    closed spec fn view(&self) -> InferenceLoaderView {
        InferenceLoaderView {
            num_threads: self.num_threads,
            buffer_size: self.buffer_size,
            batch_limit: self.batch_limit,
            batch_limit_type: self.batch_limit_type,
            prefetch_factor: self.prefetch_factor,
            sort: self.sort,
            min_items: self.min_items,
            splits: self.splits@,
        }
    }
}

/// An inference batch with its arrays.
#[derive(Debug)]
pub struct InferenceBatch {
    pub batch: Batch<InferenceItem>,
    pub tensorized: TensorizedTokens,
}

impl InferenceBatch {
    /// The number of items of the batch.
    pub fn len(&self) -> (n: usize)
        ensures
            n == self.batch@.len(),
    {
        self.batch.len()
    }
}

/// What an inference loader yields: the batches of the items in front of
/// the first failure, and that failure.
#[derive(Debug)]
pub struct InferenceRun<E> {
    pub batches: Vec<InferenceBatch>,
    pub error: Option<E>,
}

/// What an inference loader yields for `sources`, which hold a record or
/// the failure to read one at every place, if `results` is what the pipeline
/// makes of the records in front of the first failure to read one: the
/// sources are read one after the other, the items of the records in front of
/// the first failure are batched in the order of the records, and every batch
/// is padded. The failure is the first one of the pipeline, or without one
/// the first failure to read a record.
pub open spec fn inferred<E, X: Transform<InferenceData, Result<Vec<InferenceItem>, E>>>(
    view: InferenceLoaderView,
    sources: Seq<Seq<Result<InferenceData, E>>>,
    pipeline: X,
    pad: u32,
    results: Seq<Result<Vec<InferenceItem>, E>>,
    out: InferenceRun<E>,
) -> bool {
    let groups = batches_of(
        flattened(source_views(before_error(results))),
        view.batcher_params(),
    );
    &&& piped(before_error(flattened(sources)), pipeline, None, results)
    &&& out.error == (match first_error(results) {
        Some(e) => Some(e),
        None => first_error(flattened(sources)),
    })
    &&& out.batches@.len() == groups.len()
    &&& forall|b: int|
        0 <= b < out.batches@.len() ==> (#[trigger] out.batches@[b]).batch@ == groups[b]
    &&& forall|b: int| 0 <= b < out.batches@.len() ==> (#[trigger] groups[b]).len() > 0
    &&& forall|b: int|
        0 <= b < out.batches@.len() ==> (#[trigger] out.batches@[b]).tensorized.pads(
            window_rows(groups[b]),
            pad,
        )
}

impl InferenceLoader {
    #[verifier::type_invariant]
    spec fn inv(&self) -> bool {
        self@.valid()
    }

    /// A loader over sources of at least `splits[i]` records each. The
    /// number of items that it announces is the sum of these numbers; a
    /// prefetch factor of 0 counts as 1.
    pub fn new(
        splits: Vec<usize>,
        num_threads: u8,
        buffer_size: usize,
        batch_limit: usize,
        batch_limit_type: BatchLimitType,
        prefetch_factor: usize,
        sort: bool,
    ) -> (out: Result<Self, ConfigError>)
        ensures
            out matches Err(e) ==> inference_config_error(
                splits@.len(),
                num_threads,
                batch_limit,
                sort,
            ) == Some(e),
            out matches Ok(loader) ==> inference_config_error(
                splits@.len(),
                num_threads,
                batch_limit,
                sort,
            ) is None && loader@.valid() && loader@ == InferenceLoaderView::initial(
                splits@,
                num_threads,
                buffer_size,
                batch_limit,
                batch_limit_type,
                prefetch_factor,
                sort,
            ),
    {
        if splits.len() == 0 {
            return Err(ConfigError::NoSources);
        }
        if sort {
            return Err(ConfigError::SortWithoutShuffle);
        }
        if batch_limit == 0 {
            return Err(ConfigError::ZeroBatchLimit);
        }
        if num_threads < 1 || num_threads > 64 {
            return Err(ConfigError::WorkerCount { workers: num_threads as usize });
        }
        let prefetch_factor = if prefetch_factor == 0 {
            1
        } else {
            prefetch_factor
        };
        let min_items = min_len(&splits, &TextIterationStrategy::Sequential);
        Ok(
            InferenceLoader {
                num_threads,
                buffer_size,
                batch_limit,
                batch_limit_type,
                prefetch_factor,
                sort,
                min_items,
                splits,
            },
        )
    }

    /// A loader over one source of at least `min_len` records that are
    /// handed over one by one; the settings are checked as by `new`.
    pub fn from_iterator(
        min_len: usize,
        num_threads: u8,
        buffer_size: usize,
        batch_limit: usize,
        batch_limit_type: BatchLimitType,
        prefetch_factor: usize,
        sort: bool,
    ) -> (out: Result<Self, ConfigError>)
        ensures
            out matches Err(e) ==> inference_config_error(1, num_threads, batch_limit, sort)
                == Some(e),
            out matches Ok(loader) ==> inference_config_error(1, num_threads, batch_limit, sort)
                is None && loader@.valid() && loader@ == InferenceLoaderView::initial(
                seq![min_len],
                num_threads,
                buffer_size,
                batch_limit,
                batch_limit_type,
                prefetch_factor,
                sort,
            ),
    {
        let mut splits: Vec<usize> = Vec::new();
        splits.push(min_len);
        proof {
            assert(splits@ =~= seq![min_len]);
        }
        Self::new(
            splits,
            num_threads,
            buffer_size,
            batch_limit,
            batch_limit_type,
            prefetch_factor,
            sort,
        )
    }

    /// A loader over files of at least `splits[i]` records each: there has
    /// to be a file, and a language for every file if languages are given;
    /// the other settings are checked as by `new`.
    pub fn from_files(
        files: &Vec<String>,
        languages: &Option<Vec<String>>,
        splits: Vec<usize>,
        num_threads: u8,
        buffer_size: usize,
        batch_limit: usize,
        batch_limit_type: BatchLimitType,
        prefetch_factor: usize,
        sort: bool,
    ) -> (out: Result<Self, ConfigError>)
        requires
            splits@.len() == files@.len(),
        ensures
            out is Ok <==> sources_error(files@.len(), language_count(*languages)) is None
                && inference_config_error(splits@.len(), num_threads, batch_limit, sort) is None,
            out matches Err(e) ==> Some(e) == (if sources_error(
                files@.len(),
                language_count(*languages),
            ) is Some {
                sources_error(files@.len(), language_count(*languages))
            } else {
                inference_config_error(splits@.len(), num_threads, batch_limit, sort)
            }),
            out matches Ok(loader) ==> loader@.valid() && loader@ == InferenceLoaderView::initial(
                splits@,
                num_threads,
                buffer_size,
                batch_limit,
                batch_limit_type,
                prefetch_factor,
                sort,
            ),
    {
        match check_sources(files.len(), languages) {
            Some(e) => {
                return Err(e);
            },
            None => {},
        }
        Self::new(
            splits,
            num_threads,
            buffer_size,
            batch_limit,
            batch_limit_type,
            prefetch_factor,
            sort,
        )
    }

    /// The number of items announced: the sum of the lower bounds of the sources.
    pub fn min_items(&self) -> (out: usize)
        ensures
            out == self@.min_items,
    {
        self.min_items
    }

    /// The lower bound of each source.
    pub fn splits(&self) -> (out: Vec<usize>)
        ensures
            out@ == self@.splits,
    {
        copy_of(&self.splits)
    }

    /// The number of threads of the pipeline stage.
    pub fn num_threads(&self) -> (out: u8)
        ensures
            out == self@.num_threads,
            1 <= out <= MAX_WORKERS,
    {
        proof {
            use_type_invariant(self);
        }
        self.num_threads
    }

    /// The number of batches that are prepared ahead.
    pub fn buffer_size(&self) -> (out: usize)
        ensures
            out == self@.buffer_size,
    {
        self.buffer_size
    }

    /// How the items are batched.
    pub fn batcher(&self) -> (out: BatcherConfig)
        ensures
            out@ == self@.batcher_params(),
    {
        proof {
            use_type_invariant(self);
        }
        match BatcherConfig::new(
            self.sort,
            false,
            self.prefetch_factor,
            self.batch_limit,
            self.batch_limit_type,
            None,
        ) {
            Ok(batcher) => batcher,
            Err(_) => vstd::pervasive::unreached(),
        }
    }

    /// Runs inference loading over sources held in memory, which hold a
    /// record or the failure to read one at every place.
    #[verifier::loop_isolation(false)]
    pub fn run<E, X: Transform<InferenceData, Result<Vec<InferenceItem>, E>>>(
        &self,
        sources: Vec<Vec<Result<InferenceData, E>>>,
        pipeline: &X,
        pad_token_id: u32,
    ) -> (out: InferenceRun<E>)
        requires
            forall|d: InferenceData, i: usize| #[trigger] pipeline.accepts(d, i, None),
        ensures
            exists|results: Seq<Result<Vec<InferenceItem>, E>>| #[trigger]
                inferred(self@, source_views(sources@), *pipeline, pad_token_id, results, out),
    {
        let ghost src = source_views(sources@);
        proof {
            lemma_concat_all_flattened(sources@);
        }
        let stream = join(sources);
        let (records, read_error) = until_error(stream);
        let results = pipe(records, pipeline, None);
        let ghost outcomes = results@;
        let (expanded, pipeline_error) = until_error(results);
        let error = match pipeline_error {
            Some(e) => Some(e),
            None => read_error,
        };
        proof {
            lemma_concat_all_flattened(expanded@);
        }
        let items = join(expanded);
        let config = self.batcher();
        let batches = batched(items, &config);
        let ghost groups = batch_views(batches@);
        let mut out: Vec<InferenceBatch> = Vec::new();
        for batch in it: batches
            invariant
                it.seq().len() == groups.len(),
                groups == batch_views(it.seq()),
                out@.len() == it.index(),
                forall|b: int| 0 <= b < out@.len() ==> (#[trigger] out@[b]).batch@ == groups[b],
                forall|b: int| 0 <= b < out@.len() ==> (#[trigger] groups[b]).len() > 0,
                forall|b: int|
                    0 <= b < out@.len() ==> (#[trigger] out@[b]).tensorized.pads(
                        window_rows(groups[b]),
                        pad_token_id,
                    ),
        {
            proof {
                assert(groups[it.index() as int] == batch@);
                assert(within_limit(
                    it.seq()[it.index() as int]@,
                    config@.limit_type,
                    config@.limit,
                ));
            }
            let tensorized = batch.tensorize(pad_token_id);
            out.push(InferenceBatch { batch, tensorized });
        }
        let run = InferenceRun { batches: out, error };
        proof {
            assert(inferred(self@, src, *pipeline, pad_token_id, outcomes, run));
        }
        run
    }
}


/// The pipeline gives one result for an input: what it makes of a record
/// depends on the record, its index and the seed alone.
pub open spec fn deterministic<I, O, X: Transform<I, O>>(pipeline: X) -> bool {
    forall|input: I, idx: usize, seed: Option<u64>, a: O, b: O|
        #![trigger pipeline.yields(input, idx, seed, a), pipeline.yields(input, idx, seed, b)]
        pipeline.yields(input, idx, seed, a) && pipeline.yields(input, idx, seed, b) ==> a == b
}

/// Two tensorized batches hold the same arrays.
pub open spec fn same_arrays(a: TensorizedBatch, b: TensorizedBatch) -> bool {
    &&& a.token_ids.rows == b.token_ids.rows
    &&& a.token_ids.cols == b.token_ids.cols
    &&& a.token_ids.data@ == b.token_ids.data@
    &&& a.lengths@ == b.lengths@
    &&& match (a.labels, b.labels) {
        (LabelArray::Classes(x), LabelArray::Classes(y)) => x@ == y@,
        (LabelArray::Groups(x), LabelArray::Groups(y)) => x.rows == y.rows && x.cols == y.cols
            && x.data@ == y.data@,
        _ => false,
    }
}

/// Two outcomes of loading are the same: the same batches with the same
/// arrays, or the same failure.
pub open spec fn same_outcome<E>(
    a: Result<Vec<DataBatch>, LoadError<E>>,
    b: Result<Vec<DataBatch>, LoadError<E>>,
) -> bool {
    match (a, b) {
        (Ok(x), Ok(y)) => {
            &&& x@.len() == y@.len()
            &&& forall|k: int| 0 <= k < x@.len() ==> (#[trigger] x@[k]).batch@ == y@[k].batch@
            &&& forall|k: int|
                0 <= k < x@.len() ==> same_arrays((#[trigger] x@[k]).tensorized, y@[k].tensorized)
        },
        (Err(LoadError::Record(e)), Err(LoadError::Record(f))) => e == f,
        (Err(LoadError::Contract(e)), Err(LoadError::Contract(f))) => e == f,
        (Err(LoadError::Config(e)), Err(LoadError::Config(f))) => e == f,
        _ => false,
    }
}

/// The arrays of a batch are a function of the batch, the padding token
/// and the number of prefix tokens.
pub proof fn lemma_tensorized_once(
    a: TensorizedBatch,
    b: TensorizedBatch,
    items: Seq<Item>,
    pad: u32,
    prefix: nat,
)
    requires
        a.tensorizes(items, pad, prefix),
        b.tensorizes(items, pad, prefix),
    ensures
        same_arrays(a, b),
{
    let rows = item_rows(items);
    assert(a.lengths@ =~= b.lengths@);
    assert forall|i: int| 0 <= i < a.token_ids.rows implies #[trigger] a.token_ids.row(i)
        == b.token_ids.row(i) by {
        assert(a.token_ids.row(i) == padded_row(rows[i], a.token_ids.cols as nat, pad));
        assert(b.token_ids.row(i) == padded_row(rows[i], b.token_ids.cols as nat, pad));
    }
    a.token_ids.lemma_same_rows(&b.token_ids);
    assert(item_violation(items, 0, prefix) is None);
    match (a.labels, b.labels) {
        (LabelArray::Classes(x), LabelArray::Classes(y)) => {
            assert forall|i: int| 0 <= i < x@.len() implies x@[i] == y@[i] by {
                assert(items[i].label == Label::Classification(x@[i]));
                assert(items[i].label == Label::Classification(y@[i]));
            }
            assert(x@ =~= y@);
        },
        (LabelArray::Groups(x), LabelArray::Groups(y)) => {
            assert forall|i: int| 0 <= i < x.rows implies #[trigger] x.row(i) == y.row(i) by {
                assert(x.row(i) == label_row(
                    items[i].label->SeqClassification_0@,
                    prefix,
                    x.cols as nat,
                ));
                assert(y.row(i) == label_row(
                    items[i].label->SeqClassification_0@,
                    prefix,
                    y.cols as nat,
                ));
            }
            x.lemma_same_rows(&y);
        },
        (LabelArray::Classes(x), LabelArray::Groups(y)) => {
            assert(items[0].label == Label::Classification(x@[0]));
            assert(items[0].label is SeqClassification);
        },
        (LabelArray::Groups(x), LabelArray::Classes(y)) => {
            assert(items[0].label == Label::Classification(y@[0]));
            assert(items[0].label is SeqClassification);
        },
    }
}

/// What keeps a batch from being tensorized is one thing, and a batch that
/// something keeps from it cannot be tensorized.
pub proof fn lemma_violation_once(items: Seq<Item>, prefix: nat, e: ContractError, f: ContractError)
    requires
        violates(items, prefix, e),
    ensures
        !tensorizable(items, prefix),
        violates(items, prefix, f) ==> e == f,
{
    if items.len() > 0 {
        let i = choose|i: int|
            0 <= i < items.len() && item_violation(items, i, prefix) == Some(e) && forall|j: int|
                0 <= j < i ==> (#[trigger] item_violation(items, j, prefix)) is None;
        assert(item_violation(items, i, prefix) is Some);
        if violates(items, prefix, f) {
            let k = choose|k: int|
                0 <= k < items.len() && item_violation(items, k, prefix) == Some(f)
                    && forall|j: int|
                    0 <= j < k ==> (#[trigger] item_violation(items, j, prefix)) is None;
            if i < k {
                assert(item_violation(items, i, prefix) is None);
            } else if k < i {
                assert(item_violation(items, k, prefix) is None);
            }
        }
    }
}

/// Loading is repeatable: with a pipeline that gives one result for an
/// input, two loadings of the same sources with the same settings, seed and
/// epoch among them, make the same of every record and end in the same
/// outcome, batch for batch and array for array.
pub proof fn lemma_load_repeatable<E, X: Transform<TextData, Result<Item, E>>>(
    view: DataLoaderView,
    sources: Seq<Seq<Result<TextData, E>>>,
    pipeline: X,
    pad: u32,
    prefix: nat,
    first_results: Seq<Result<Item, E>>,
    first: Result<Vec<DataBatch>, LoadError<E>>,
    second_results: Seq<Result<Item, E>>,
    second: Result<Vec<DataBatch>, LoadError<E>>,
)
    requires
        deterministic(pipeline),
        loaded(view, sources, pipeline, pad, prefix, first_results, first),
        loaded(view, sources, pipeline, pad, prefix, second_results, second),
    ensures
        first_results == second_results,
        same_outcome(first, second),
{
    let seed = view.seed_of_epoch();
    let selected = records_read(view, sources);
    assert forall|i: int| 0 <= i < selected.len() implies first_results[i] == second_results[i] by {
        assert(pipeline.yields(selected[i], i as usize, seed, first_results[i]));
        assert(pipeline.yields(selected[i], i as usize, seed, second_results[i]));
    }
    assert(first_results =~= second_results);
    let groups = batches_of(oks(first_results), view.batcher_params());
    match (first, second) {
        (Ok(x), Ok(y)) => {
            assert forall|k: int| 0 <= k < x@.len() implies same_arrays(
                (#[trigger] x@[k]).tensorized,
                y@[k].tensorized,
            ) by {
                assert(y@[k].tensorized.tensorizes(groups[k], pad, prefix));
                lemma_tensorized_once(x@[k].tensorized, y@[k].tensorized, groups[k], pad, prefix);
            }
            assert forall|k: int| 0 <= k < x@.len() implies (#[trigger] x@[k]).batch@
                == y@[k].batch@ by {
                assert(y@[k].batch@ == groups[k]);
            }
        },
        (Ok(x), Err(LoadError::Contract(e))) => {
            let b = choose|b: int|
                0 <= b < groups.len() && violates(#[trigger] groups[b], prefix, e);
            lemma_violation_once(groups[b], prefix, e, e);
            assert(x@[b].tensorized.tensorizes(groups[b], pad, prefix));
        },
        (Err(LoadError::Contract(e)), Ok(y)) => {
            let b = choose|b: int|
                0 <= b < groups.len() && violates(#[trigger] groups[b], prefix, e);
            lemma_violation_once(groups[b], prefix, e, e);
            assert(y@[b].tensorized.tensorizes(groups[b], pad, prefix));
        },
        (Err(LoadError::Contract(e)), Err(LoadError::Contract(f))) => {
            let b = choose|b: int|
                0 <= b < groups.len() && violates(#[trigger] groups[b], prefix, e) && forall|c: int|
                    0 <= c < b ==> tensorizable(#[trigger] groups[c], prefix);
            let c = choose|c: int|
                0 <= c < groups.len() && violates(#[trigger] groups[c], prefix, f) && forall|d: int|
                    0 <= d < c ==> tensorizable(#[trigger] groups[d], prefix);
            lemma_violation_once(groups[b], prefix, e, f);
            lemma_violation_once(groups[c], prefix, f, e);
            if b < c {
                assert(tensorizable(groups[b], prefix));
            } else if c < b {
                assert(tensorizable(groups[c], prefix));
            }
        },
        _ => {},
    }
}

} // verus!
