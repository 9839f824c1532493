use vstd::prelude::*;
use crate::cache::{store_in_cache, Cache};
use crate::card::{texts, Card, CardView};
use crate::cost::{cmc_f32_to_u8, exact_cost};
use crate::text::{chars_of, find_text, lemma_position, position};

verus! {

/// Whether `c` is white space: the characters with the Unicode property
/// White_Space.
pub open spec fn is_space(c: char) -> bool {
    let u = c as u32;
    ||| 0x09 <= u <= 0x0d
    ||| u == 0x20
    ||| u == 0x85
    ||| u == 0xa0
    ||| u == 0x1680
    ||| 0x2000 <= u <= 0x200a
    ||| u == 0x2028
    ||| u == 0x2029
    ||| u == 0x202f
    ||| u == 0x205f
    ||| u == 0x3000
}

/// Whether `c` is one of the digits `0` to `9`.
pub open spec fn is_digit(c: char) -> bool {
    0x30 <= c as u32 <= 0x39
}

/// `s` without the white space that it starts with.
pub open spec fn skip_spaces(s: Seq<char>) -> Seq<char>
    decreases s.len(),
{
    if s.len() > 0 && is_space(s[0]) {
        skip_spaces(s.drop_first())
    } else {
        s
    }
}

/// `s` without the white space that it ends with.
pub open spec fn drop_spaces(s: Seq<char>) -> Seq<char>
    decreases s.len(),
{
    if s.len() > 0 && is_space(s.last()) {
        drop_spaces(s.drop_last())
    } else {
        s
    }
}

/// `s` without the digits that it starts with.
pub open spec fn skip_digits(s: Seq<char>) -> Seq<char>
    decreases s.len(),
{
    if s.len() > 0 && is_digit(s[0]) {
        skip_digits(s.drop_first())
    } else {
        s
    }
}

/// `s` without white space at either end.
pub open spec fn trimmed(s: Seq<char>) -> Seq<char> {
    drop_spaces(skip_spaces(s))
}

/// The card name that a line of a deck list gives: the line without white
/// space at its ends; and where that starts with a digit, without its
/// leading digits and the white space after them.
pub open spec fn card_name(line: Seq<char>) -> Seq<char> {
    let name = trimmed(line);
    if name.len() > 0 && is_digit(name[0]) {
        trimmed(skip_digits(name))
    } else {
        name
    }
}

/// What is left after leading white space is skipped is the end of the
/// text, and does not start with white space.
proof fn lemma_skip_spaces(s: Seq<char>)
    ensures
        exists|k: int| 0 <= k <= s.len() && skip_spaces(s) == #[trigger] s.skip(k),
        skip_spaces(s).len() > 0 ==> !is_space(skip_spaces(s)[0]),
    decreases s.len(),
{
    if s.len() > 0 && is_space(s[0]) {
        lemma_skip_spaces(s.drop_first());
        let k = choose|k: int|
            0 <= k <= s.drop_first().len() && skip_spaces(s.drop_first()) == #[trigger] s.drop_first().skip(
                k,
            );
        assert(s.drop_first().skip(k) =~= s.skip(k + 1));
    } else {
        assert(s =~= s.skip(0));
    }
}

/// What is left after leading digits are skipped is the end of the text.
proof fn lemma_skip_digits(s: Seq<char>)
    ensures
        exists|k: int| 0 <= k <= s.len() && skip_digits(s) == #[trigger] s.skip(k),
    decreases s.len(),
{
    if s.len() > 0 && is_digit(s[0]) {
        lemma_skip_digits(s.drop_first());
        let k = choose|k: int|
            0 <= k <= s.drop_first().len() && skip_digits(s.drop_first()) == #[trigger] s.drop_first().skip(
                k,
            );
        assert(s.drop_first().skip(k) =~= s.skip(k + 1));
    } else {
        assert(s =~= s.skip(0));
    }
}

/// What is left after trailing white space is dropped is the start of the
/// text, and does not end with white space.
proof fn lemma_drop_spaces(s: Seq<char>)
    ensures
        exists|k: int| 0 <= k <= s.len() && drop_spaces(s) == #[trigger] s.take(k),
        drop_spaces(s).len() > 0 ==> !is_space(drop_spaces(s).last()),
    decreases s.len(),
{
    if s.len() > 0 && is_space(s.last()) {
        lemma_drop_spaces(s.drop_last());
        let k = choose|k: int|
            0 <= k <= s.drop_last().len() && drop_spaces(s.drop_last()) == #[trigger] s.drop_last().take(
                k,
            );
        assert(s.drop_last().take(k) =~= s.take(k));
    } else {
        assert(s =~= s.take(s.len() as int));
    }
}

/// A text without white space at either end is a part of the text, and
/// neither starts nor ends with white space.
proof fn lemma_trimmed(s: Seq<char>)
    ensures
        exists|i: int, j: int| 0 <= i <= j <= s.len() && trimmed(s) == #[trigger] s.subrange(i, j),
        trimmed(s).len() > 0 ==> !is_space(trimmed(s)[0]) && !is_space(trimmed(s).last()),
{
    lemma_skip_spaces(s);
    lemma_drop_spaces(skip_spaces(s));
    let i = choose|k: int| 0 <= k <= s.len() && skip_spaces(s) == #[trigger] s.skip(k);
    let k = choose|k: int|
        0 <= k <= skip_spaces(s).len() && drop_spaces(skip_spaces(s)) == #[trigger] skip_spaces(
            s,
        ).take(k);
    assert(s.skip(i).take(k) =~= s.subrange(i, i + k));
}

/// A card name is a part of its line, and neither starts nor ends with
/// white space.
pub proof fn lemma_card_name_is_trimmed(line: Seq<char>)
    ensures
        exists|i: int, j: int|
            0 <= i <= j <= line.len() && card_name(line) == #[trigger] line.subrange(i, j),
        card_name(line).len() > 0 ==> !is_space(card_name(line)[0]) && !is_space(
            card_name(line).last(),
        ),
{
    lemma_trimmed(line);
    let name = trimmed(line);
    let (i, j) = choose|i: int, j: int|
        0 <= i <= j <= line.len() && trimmed(line) == #[trigger] line.subrange(i, j);
    if name.len() > 0 && is_digit(name[0]) {
        lemma_skip_digits(name);
        let d = choose|k: int| 0 <= k <= name.len() && skip_digits(name) == #[trigger] name.skip(k);
        let rest = name.skip(d);
        lemma_trimmed(rest);
        let (a, b) = choose|a: int, b: int|
            0 <= a <= b <= rest.len() && trimmed(rest) == #[trigger] rest.subrange(a, b);
        assert(rest.subrange(a, b) =~= line.subrange(i + d + a, i + d + b));
    }
}

/// Whether `c` is white space.
fn space(c: char) -> (b: bool)
    ensures
        b == is_space(c),
{
    let u = c as u32;
    (0x09 <= u && u <= 0x0d) || u == 0x20 || u == 0x85 || u == 0xa0 || u == 0x1680 || (0x2000 <= u
        && u <= 0x200a) || u == 0x2028 || u == 0x2029 || u == 0x202f || u == 0x205f || u == 0x3000
}

/// Whether `c` is a digit.
fn digit(c: char) -> (b: bool)
    ensures
        b == is_digit(c),
{
    let u = c as u32;
    0x30 <= u && u <= 0x39
}

/// Where the part of `chars` from `from` to `to` starts once the white
/// space before it is skipped.
fn after_spaces(chars: &Vec<char>, from: usize, to: usize) -> (at: usize)
    requires
        from <= to <= chars.len(),
    ensures
        from <= at <= to,
        chars@.subrange(at as int, to as int) == skip_spaces(chars@.subrange(from as int, to as int)),
{
    let mut at = from;
    while at < to && space(chars[at])
        invariant
            from <= at <= to <= chars.len(),
            skip_spaces(chars@.subrange(at as int, to as int)) == skip_spaces(
                chars@.subrange(from as int, to as int),
            ),
        decreases to - at,
    {
        assert(chars@.subrange(at as int, to as int).drop_first() =~= chars@.subrange(
            at + 1,
            to as int,
        ));
        at += 1;
    }
    at
}

/// Where the part of `chars` from `from` to `to` starts once the digits
/// before it are skipped.
fn after_digits(chars: &Vec<char>, from: usize, to: usize) -> (at: usize)
    requires
        from <= to <= chars.len(),
    ensures
        from <= at <= to,
        chars@.subrange(at as int, to as int) == skip_digits(chars@.subrange(from as int, to as int)),
{
    let mut at = from;
    while at < to && digit(chars[at])
        invariant
            from <= at <= to <= chars.len(),
            skip_digits(chars@.subrange(at as int, to as int)) == skip_digits(
                chars@.subrange(from as int, to as int),
            ),
        decreases to - at,
    {
        assert(chars@.subrange(at as int, to as int).drop_first() =~= chars@.subrange(
            at + 1,
            to as int,
        ));
        at += 1;
    }
    at
}

/// Where the part of `chars` from `from` to `to` ends once the white space
/// behind it is dropped.
fn before_spaces(chars: &Vec<char>, from: usize, to: usize) -> (at: usize)
    requires
        from <= to <= chars.len(),
    ensures
        from <= at <= to,
        chars@.subrange(from as int, at as int) == drop_spaces(chars@.subrange(from as int, to as int)),
{
    let mut at = to;
    while from < at && space(chars[at - 1])
        invariant
            from <= at <= to <= chars.len(),
            drop_spaces(chars@.subrange(from as int, at as int)) == drop_spaces(
                chars@.subrange(from as int, to as int),
            ),
        decreases at,
    {
        assert(chars@.subrange(from as int, at as int).drop_last() =~= chars@.subrange(
            from as int,
            at - 1,
        ));
        at -= 1;
    }
    at
}

/// The card name that a line of a deck list gives: a quantity before the
/// name, and white space around either, are left out.
pub fn card_name_trimmer(s: &str) -> (name: &str)
    ensures
        name@ == card_name(s@),
{
    let chars = chars_of(s);
    let n = chars.len();
    assert(chars@.subrange(0, n as int) =~= s@);
    let start = after_spaces(&chars, 0, n);
    let end = before_spaces(&chars, start, n);
    if start < end && digit(chars[start]) {
        let rest = after_digits(&chars, start, end);
        let start = after_spaces(&chars, rest, end);
        let end = before_spaces(&chars, start, end);
        s.substring_char(start, end)
    } else {
        s.substring_char(start, end)
    }
}

/// The pieces of `line` between its spaces. A line without spaces is one
/// piece, and two spaces in a row have an empty piece between them.
pub open spec fn split_spaces(line: Seq<char>) -> Seq<Seq<char>>
    decreases line.len(),
{
    if line.len() == 0 {
        seq![Seq::empty()]
    } else {
        let before = split_spaces(line.drop_last());
        if line.last() == ' ' {
            before.push(Seq::empty())
        } else {
            before.update(before.len() - 1, before.last().push(line.last()))
        }
    }
}

/// The pieces with a space between each two of them.
pub open spec fn join_spaces(pieces: Seq<Seq<char>>) -> Seq<char>
    decreases pieces.len(),
{
    if pieces.len() == 0 {
        Seq::empty()
    } else if pieces.len() == 1 {
        pieces[0]
    } else {
        join_spaces(pieces.drop_last()) + seq![' '] + pieces.last()
    }
}

/// The pieces of a line are what stands between its spaces: there is at
/// least one piece, no piece holds a space, and the pieces with a space
/// between each two of them are the line.
pub proof fn lemma_split_spaces(line: Seq<char>)
    ensures
        split_spaces(line).len() >= 1,
        forall|i: int, j: int|
            0 <= i < split_spaces(line).len() && 0 <= j < split_spaces(line)[i].len()
                ==> #[trigger] split_spaces(line)[i][j] != ' ',
        join_spaces(split_spaces(line)) == line,
    decreases line.len(),
{
    if line.len() == 0 {
        assert(join_spaces(split_spaces(line)) =~= line);
    } else {
        lemma_split_spaces(line.drop_last());
        let before = split_spaces(line.drop_last());
        let pieces = split_spaces(line);
        if line.last() == ' ' {
            assert(pieces.drop_last() =~= before);
            assert(join_spaces(pieces) =~= line.drop_last() + seq![' '] + Seq::<char>::empty());
            assert(line.drop_last() + seq![' '] + Seq::<char>::empty() =~= line);
        } else {
            let grown = before.last().push(line.last());
            assert(pieces.last() == grown);
            if before.len() == 1 {
                assert(before[0] == line.drop_last());
                assert(grown =~= line);
            } else {
                assert(pieces.drop_last() =~= before.drop_last());
                assert(join_spaces(before.drop_last()) + seq![' '] + grown =~= (join_spaces(
                    before.drop_last(),
                ) + seq![' '] + before.last()).push(line.last()));
                assert(line.drop_last().push(line.last()) =~= line);
            }
        }
    }
}

/// The pieces of `line` between its spaces.
pub fn split_type_line(line: &str) -> (words: Vec<String>)
    ensures
        texts(words@) == split_spaces(line@),
{
    let chars = chars_of(line);
    let n = chars.len();
    let mut words: Vec<String> = Vec::new();
    let mut start: usize = 0;
    let mut i: usize = 0;
    assert(line@.subrange(0, 0) =~= Seq::<char>::empty());
    assert(split_spaces(line@.take(0)) =~= texts(words@).push(line@.subrange(0, 0)));
    while i < n
        invariant
            chars@ == line@,
            n == chars.len(),
            start <= i <= n,
            split_spaces(line@.take(i as int)) == texts(words@).push(
                line@.subrange(start as int, i as int),
            ),
        decreases n - i,
    {
        let ghost before = texts(words@);
        assert(line@.take(i + 1).drop_last() =~= line@.take(i as int));
        assert(line@.take(i + 1).last() == chars@[i as int]);
        if chars[i] == ' ' {
            words.push(String::from_str(line.substring_char(start, i)));
            assert(texts(words@) =~= before.push(line@.subrange(start as int, i as int)));
            start = i + 1;
            assert(line@.subrange(start as int, i + 1) =~= Seq::<char>::empty());
        } else {
            assert(line@.subrange(start as int, i as int).push(chars@[i as int]) =~= line@.subrange(
                start as int,
                i + 1,
            ));
            assert(before.push(line@.subrange(start as int, i as int)).update(
                before.len() as int,
                line@.subrange(start as int, i as int).push(chars@[i as int]),
            ) =~= before.push(line@.subrange(start as int, i + 1)));
        }
        i += 1;
    }
    let ghost before = texts(words@);
    words.push(String::from_str(line.substring_char(start, n)));
    assert(texts(words@) =~= before.push(line@.subrange(start as int, n as int)));
    assert(line@.take(n as int) =~= line@);
    words
}

/// What the look-up service tells of a card: its name, its type line if
/// it has one, and its cost, if it has one, as the bits of a binary32
/// number.
pub struct LookupRecord {
    pub name: String,
    pub type_line: Option<String>,
    pub cmc: Option<u32>,
}

/// The mathematical value of a [`LookupRecord`].
pub struct RecordView {
    pub name: Seq<char>,
    pub type_line: Option<Seq<char>>,
    pub cmc: Option<u32>,
}

impl View for LookupRecord {
    type V = RecordView;

    open spec fn view(&self) -> RecordView {
        RecordView {
            name: self.name@,
            type_line: match self.type_line {
                Some(line) => Some(line@),
                None => None,
            },
            cmc: self.cmc,
        }
    }
}

/// Why a record makes no card.
#[derive(Debug, Clone, Copy, PartialEq, Eq)]
pub enum RecordError {
    /// The record has no cost.
    MissingCost,
    /// The cost of the record is no whole number from 0 to 255.
    FractionalCost,
}

/// The card that a record makes: its name, its cost as a whole number, and
/// the words of its type line, none where it has no type line. A record
/// without a cost makes no card, nor does one whose cost is not exact.
pub open spec fn card_of(record: RecordView) -> Result<CardView, RecordError> {
    match record.cmc {
        None => Err(RecordError::MissingCost),
        Some(bits) => match exact_cost(bits) {
            None => Err(RecordError::FractionalCost),
            Some(cost) => Ok(
                CardView {
                    name: record.name,
                    cmc: cost,
                    types: match record.type_line {
                        Some(line) => split_spaces(line),
                        None => Seq::empty(),
                    },
                },
            ),
        },
    }
}

/// Makes the card of a record.
pub fn card_from_record(record: LookupRecord) -> (made: Result<Card, RecordError>)
    ensures
        match made {
            Ok(card) => card_of(record@) == Ok::<CardView, RecordError>(card@),
            Err(e) => card_of(record@) == Err::<CardView, RecordError>(e),
        },
{
    let types: Vec<String> = match &record.type_line {
        Some(line) => split_type_line(line.as_str()),
        None => Vec::new(),
    };
    assert(record.type_line is None ==> texts(types@) =~= Seq::<Seq<char>>::empty());
    let bits = match record.cmc {
        Some(bits) => bits,
        None => {
            return Err(RecordError::MissingCost);
        },
    };
    match cmc_f32_to_u8(bits) {
        Some(cmc) => Ok(Card { name: record.name, cmc, types }),
        None => Err(RecordError::FractionalCost),
    }
}

/// Why the cache gave no answer.
#[derive(Debug, Clone, Copy, PartialEq, Eq)]
pub enum CacheFailure {
    /// What backs the cache was not found.
    NotFound,
    /// Any other failure to read the cache.
    Other,
}

/// What to report before a card is looked up.
#[derive(Debug, Clone, Copy, PartialEq, Eq)]
pub enum Diagnostic {
    /// The cache has no card under the name.
    CacheMiss,
    /// The cache could not be read.
    CacheFailed,
}

/// What to do for a name once the cache was asked.
pub enum FetchStep {
    /// The cache had the card: it is the answer, and nothing is looked up.
    Cached(Card),
    /// The card is to be looked up, after the report.
    Lookup(Diagnostic),
}

/// The mathematical value of a [`FetchStep`].
pub enum FetchStepView {
    Cached(CardView),
    Lookup(Diagnostic),
}

impl View for FetchStep {
    type V = FetchStepView;

    open spec fn view(&self) -> FetchStepView {
        match self {
            FetchStep::Cached(card) => FetchStepView::Cached(card@),
            FetchStep::Lookup(report) => FetchStepView::Lookup(*report),
        }
    }
}

/// The step that follows an answer of the cache: a card that was found is
/// the answer; a failure other than "not found" is reported as such, and
/// the card is looked up; anything else is a miss, and the card is looked
/// up.
pub open spec fn next_step(found: Result<Option<CardView>, CacheFailure>) -> FetchStepView {
    match found {
        Ok(Some(card)) => FetchStepView::Cached(card),
        Err(CacheFailure::Other) => FetchStepView::Lookup(Diagnostic::CacheFailed),
        _ => FetchStepView::Lookup(Diagnostic::CacheMiss),
    }
}

/// What the cache answered, as a mathematical value.
pub open spec fn answer(found: Result<Option<Card>, CacheFailure>) -> Result<
    Option<CardView>,
    CacheFailure,
> {
    match found {
        Ok(Some(card)) => Ok(Some(card@)),
        Ok(None) => Ok(None),
        Err(e) => Err(e),
    }
}

/// Decides what to do for a name from the answer of the cache.
pub fn fetch_card(found: Result<Option<Card>, CacheFailure>) -> (step: FetchStep)
    ensures
        step@ == next_step(answer(found)),
{
    match found {
        Ok(Some(card)) => FetchStep::Cached(card),
        Err(CacheFailure::Other) => FetchStep::Lookup(Diagnostic::CacheFailed),
        _ => FetchStep::Lookup(Diagnostic::CacheMiss),
    }
}

/// Takes in what the look-up service told of the card asked for as `name`:
/// makes the card of the record and keeps it in the cache under `name`. A
/// record that makes no card leaves the cache as it is.
pub fn store_record(cache: &mut Cache, name: &str, record: LookupRecord) -> (made: Result<
    Card,
    RecordError,
>)
    requires
        old(cache).wf(),
    ensures
        final(cache).wf(),
        match made {
            Ok(card) => {
                &&& card_of(record@) == Ok::<CardView, RecordError>(card@)
                &&& final(cache)@ == old(cache)@.insert(name@, card@)
            },
            Err(e) => {
                &&& card_of(record@) == Err::<CardView, RecordError>(e)
                &&& final(cache)@ == old(cache)@
            },
        },
{
    match card_from_record(record) {
        Ok(card) => {
            store_in_cache(cache, name, &card);
            Ok(card)
        },
        Err(e) => Err(e),
    }
}

/// What a cache with the entries `cache` answers when asked for `name`.
pub open spec fn cached(cache: Map<Seq<char>, CardView>, name: Seq<char>) -> Option<CardView> {
    if cache.contains_key(name) {
        Some(cache[name])
    } else {
        None
    }
}

/// Once a card was stored under a name, asking for that name again gives
/// the same card from the cache, and no look-up.
pub proof fn lemma_stored_card_is_cached(
    cache: Map<Seq<char>, CardView>,
    name: Seq<char>,
    card: CardView,
)
    ensures
        next_step(Ok(cached(cache.insert(name, card), name))) == FetchStepView::Cached(card),
{
}

/// The type word that ends the types of a card and starts its subtypes.
pub open spec fn dash() -> Seq<char> {
    "—"@
}

/// The types behind the first dash; all of them where there is no dash.
pub open spec fn after_dash(types: Seq<Seq<char>>) -> Seq<Seq<char>> {
    if position(types, dash()) < types.len() {
        types.skip(position(types, dash()) + 1)
    } else {
        types
    }
}

/// The creature that a card is: the card itself with only the types behind
/// the dash, if it has one. A card without the type `Creature` is none.
pub open spec fn creature(card: CardView) -> Option<CardView> {
    if card.types.contains("Creature"@) {
        Some(CardView { name: card.name, cmc: card.cmc, types: after_dash(card.types) })
    } else {
        None
    }
}

/// Keeps a card if it is a creature, and then cuts its types down to those
/// behind the dash.
pub fn creature_of(card: Card) -> (kept: Option<Card>)
    ensures
        match kept {
            Some(c) => creature(card@) == Some(c@),
            None => creature(card@) is None,
        },
{
    let word = String::from_str("Creature");
    let dash = String::from_str("—");
    proof {
        lemma_position(texts(card.types@), word@);
    }
    if find_text(&card.types, &word) == card.types.len() {
        return None;
    }
    let at = find_text(&card.types, &dash);
    let mut card = card;
    if at < card.types.len() {
        let ghost all = card.types@;
        let rest = card.types.split_off(at + 1);
        assert(texts(rest@) =~= texts(all).skip(at + 1));
        card.types = rest;
    }
    Some(card)
}

} // verus!
