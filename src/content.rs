//! Filler content: a sequence of tokens, grown at random towards a byte
//! budget, then fitted to the budget exactly.

use rand::rngs::StdRng;
use rand::Rng;
use rayon::iter::{IntoParallelIterator, ParallelIterator};
use vstd::prelude::*;
use vstd::string::*;
use vstd::utf8::*;

verus! {

#[verifier::external_type_specification]
#[verifier::external_body]
pub struct ExStdRng(StdRng);

/// Which fixed table the filler tokens are drawn from.
#[derive(Clone, Copy, Debug, PartialEq, Eq, Structural)]
pub enum Vocabulary {
    /// Blanks, line breaks and short pseudo-Latin words.
    Words,
    /// Blanks, line breaks and the decimal digits.
    Numbers,
}

/// The tokens of each table, in table order.
pub open spec fn vocab_tokens(v: Vocabulary) -> Seq<&'static str> {
    match v {
        Vocabulary::Words => seq![
            " ",
            "\n",
            "et",
            "est",
            "elit",
            "wasd",
            " ",
            "dolor",
            "labore",
            "eiusmod",
            "aliquaer",
            "adipisici",
        ],
        Vocabulary::Numbers => seq![" ", "\n", "0", "1", "2", "3", "4", "5", "6", "7", "8", "9"],
    }
}

impl Vocabulary {
    /// The table that the content flags select: words unless only the
    /// numbers flag is set.
    pub fn from_flags(words: bool, nums: bool) -> (r: Vocabulary)
        ensures
            r == (if !words && nums {
                Vocabulary::Numbers
            } else {
                Vocabulary::Words
            }),
    {
        if words {
            Vocabulary::Words
        } else if nums {
            Vocabulary::Numbers
        } else {
            Vocabulary::Words
        }
    }

    /// The tokens of the table.
    pub fn tokens(&self) -> (r: Vec<&'static str>)
        ensures
            r@ == vocab_tokens(*self),
    {
        match self {
            Vocabulary::Words => vec![
                " ",
                "\n",
                "et",
                "est",
                "elit",
                "wasd",
                " ",
                "dolor",
                "labore",
                "eiusmod",
                "aliquaer",
                "adipisici",
            ],
            Vocabulary::Numbers => vec![" ", "\n", "0", "1", "2", "3", "4", "5", "6", "7", "8", "9"],
        }
    }
}

/// Byte length of one token, as `str::len` gives it.
pub open spec fn token_bytes(t: &str) -> nat {
    t.len() as nat
}

/// Total byte length of a token sequence.
pub open spec fn byte_len(lines: Seq<&str>) -> nat
    decreases lines.len(),
{
    if lines.len() == 0 {
        0
    } else {
        byte_len(lines.drop_last()) + token_bytes(lines.last())
    }
}

/// The characters of a token sequence written one after another.
pub open spec fn joined(lines: Seq<&str>) -> Seq<char>
    decreases lines.len(),
{
    if lines.len() == 0 {
        Seq::empty()
    } else {
        joined(lines.drop_last()) + lines.last()@
    }
}

/// Every token is ASCII, with a length that a `usize` holds: each
/// character is then one byte.
pub open spec fn all_ascii(lines: Seq<&str>) -> bool {
    forall|i: int|
        0 <= i < lines.len() ==> is_ascii_chars(#[trigger] lines[i]@) && lines[i]@.len()
            <= usize::MAX
}

/// Joining is compatible with concatenation: the text of two sequences
/// placed end to end is the text of the first followed by that of the second.
pub proof fn lemma_joined_append(a: Seq<&str>, b: Seq<&str>)
    ensures
        joined(a + b) == joined(a) + joined(b),
    decreases b.len(),
{
    if b.len() == 0 {
        assert(a + b == a);
        assert(joined(a) + joined(b) == joined(a));
    } else {
        lemma_joined_append(a, b.drop_last());
        assert((a + b).drop_last() == a + b.drop_last());
        assert((a + b).last() == b.last());
    }
}

/// For ASCII tokens the byte length is the number of characters.
pub proof fn lemma_ascii_byte_len(lines: Seq<&str>)
    requires
        all_ascii(lines),
    ensures
        byte_len(lines) == joined(lines).len(),
    decreases lines.len(),
{
    if lines.len() > 0 {
        let rest = lines.drop_last();
        assert(all_ascii(rest)) by {
            assert forall|i: int| 0 <= i < rest.len() implies is_ascii_chars(#[trigger] rest[i]@)
                && rest[i]@.len() <= usize::MAX by {
                assert(rest[i] == lines[i]);
            }
        }
        lemma_ascii_byte_len(rest);
        let t = lines.last();
        assert(is_ascii_chars(lines[lines.len() - 1]@));
        is_ascii_chars_encode_utf8(t@);
        assert(t.spec_bytes().len() == t@.len());
    }
}

/// Appending a token appends its text.
proof fn lemma_joined_push(lines: Seq<&str>, t: &str)
    ensures
        joined(lines.push(t)) == joined(lines) + t@,
{
    assert(lines.push(t).drop_last() =~= lines);
}

/// Joining in chunks gives the text of joining in one pass: split the
/// tokens into consecutive chunks, join each chunk on its own, and write the
/// chunks' texts in their order, and the text is that of all the tokens
/// joined one after another.
pub proof fn lemma_chunked_join(chunks: Seq<Seq<&str>>)
    ensures
        joined(chunks.flatten()) == chunks.map_values(|c: Seq<&str>| joined(c)).flatten(),
    decreases chunks.len(),
{
    if chunks.len() > 0 {
        let texts = chunks.map_values(|c: Seq<&str>| joined(c));
        lemma_chunked_join(chunks.drop_first());
        lemma_joined_append(chunks.first(), chunks.drop_first().flatten());
        assert(texts.drop_first() =~= chunks.drop_first().map_values(|c: Seq<&str>| joined(c)));
    }
}

/// Every token's UTF-8 encoding has a length that a `usize` holds.
pub open spec fn bytes_fit(lines: Seq<&str>) -> bool {
    forall|i: int| 0 <= i < lines.len() ==> (#[trigger] lines[i]).spec_bytes().len() <= usize::MAX
}

/// Encoding is compatible with concatenation.
proof fn lemma_encode_utf8_append(x: Seq<char>, y: Seq<char>)
    ensures
        encode_utf8(x + y) == encode_utf8(x) + encode_utf8(y),
    decreases x.len(),
{
    if x.len() == 0 {
        assert(x + y =~= y);
        assert(encode_utf8(x) + encode_utf8(y) =~= encode_utf8(y));
    } else {
        lemma_encode_utf8_append(x.drop_first(), y);
        assert((x + y).drop_first() =~= x.drop_first() + y);
        assert((x + y)[0] == x[0]);
        assert(encode_utf8(x + y) =~= encode_utf8(x) + encode_utf8(y));
    }
}

/// Byte lengths add up over concatenation.
proof fn lemma_byte_len_append(a: Seq<&str>, b: Seq<&str>)
    ensures
        byte_len(a + b) == byte_len(a) + byte_len(b),
    decreases b.len(),
{
    if b.len() == 0 {
        assert(a + b =~= a);
    } else {
        lemma_byte_len_append(a, b.drop_last());
        assert((a + b).drop_last() =~= a + b.drop_last());
        assert((a + b).last() == b.last());
    }
}

/// The UTF-8 encoding of the joined text is as long as the tokens' byte
/// lengths together.
proof fn lemma_joined_bytes(lines: Seq<&str>)
    requires
        bytes_fit(lines),
    ensures
        encode_utf8(joined(lines)).len() == byte_len(lines),
    decreases lines.len(),
{
    if lines.len() > 0 {
        let rest = lines.drop_last();
        assert(bytes_fit(rest)) by {
            assert forall|i: int| 0 <= i < rest.len() implies (#[trigger] rest[i]).spec_bytes().len()
                <= usize::MAX by {
                assert(rest[i] == lines[i]);
            }
        }
        lemma_joined_bytes(rest);
        lemma_encode_utf8_append(joined(rest), lines.last()@);
        assert(lines[lines.len() - 1].spec_bytes().len() <= usize::MAX);
    }
}

/// Joining two parts of a token sequence separately and writing the two
/// texts one after the other gives the text of the whole sequence, whose
/// UTF-8 length is the sum of the tokens' byte lengths.
pub proof fn lemma_split_join(a: Seq<&str>, b: Seq<&str>)
    requires
        bytes_fit(a + b),
    ensures
        joined(a + b) == joined(a) + joined(b),
        encode_utf8(joined(a + b)).len() == byte_len(a) + byte_len(b),
{
    lemma_joined_append(a, b);
    lemma_byte_len_append(a, b);
    lemma_joined_bytes(a + b);
}

/// The text of a prefix of one more token is the text of the shorter prefix
/// followed by that token.
proof fn lemma_joined_take_next(lines: Seq<&str>, i: int)
    requires
        0 <= i < lines.len(),
    ensures
        joined(lines.take(i + 1)) == joined(lines.take(i)) + lines[i]@,
{
    assert(lines.take(i + 1).drop_last() =~= lines.take(i));
}

/// The text of a sequence starts with the text of each of its prefixes.
proof fn lemma_joined_split(lines: Seq<&str>, i: int)
    requires
        0 <= i <= lines.len(),
    ensures
        joined(lines) == joined(lines.take(i)) + joined(lines.skip(i)),
{
    assert(lines =~= lines.take(i) + lines.skip(i));
    lemma_joined_append(lines.take(i), lines.skip(i));
}

/// The tokens that remain once the last one, if any, is removed.
pub open spec fn dropped_last(lines: Seq<&str>) -> Seq<&str> {
    if lines.len() == 0 {
        lines
    } else {
        lines.drop_last()
    }
}

/// `n` padding characters.
pub open spec fn dashes(n: nat) -> Seq<char> {
    Seq::new(n, |i: int| '-')
}

/// `n` padding tokens of one byte each.
pub open spec fn dash_tokens(n: nat) -> Seq<&'static str> {
    Seq::new(n, |i: int| "-")
}

/// `out` is `kept` cut after `size` bytes: nothing for a size of 0, else
/// the tokens before the cut unchanged and then a non-empty beginning of
/// the token in which the cut falls.
pub open spec fn cut_tokens(kept: Seq<&str>, out: Seq<&str>, size: u64) -> bool {
    &&& out.len() <= kept.len()
    &&& (out.len() == 0 <==> size == 0)
    &&& forall|j: int| 0 <= j < out.len() - 1 ==> out[j] == kept[j]
    &&& out.len() > 0 ==> {
        &&& out.last()@.len() > 0
        &&& out.last()@ == kept[out.len() - 1]@.take(out.last()@.len() as int)
    }
}

/// A text brought to exactly `size` characters: cut after `size`
/// characters where it is longer, padded with dashes where it is shorter.
pub open spec fn fitted(text: Seq<char>, size: nat) -> Seq<char> {
    if text.len() >= size {
        text.take(size as int)
    } else {
        text + dashes((size - text.len()) as nat)
    }
}

/// The text of ASCII tokens is ASCII.
proof fn lemma_joined_ascii(lines: Seq<&str>)
    requires
        all_ascii(lines),
    ensures
        is_ascii_chars(joined(lines)),
    decreases lines.len(),
{
    if lines.len() > 0 {
        let rest = lines.drop_last();
        assert(all_ascii(rest)) by {
            assert forall|i: int| 0 <= i < rest.len() implies is_ascii_chars(#[trigger] rest[i]@)
                && rest[i]@.len() <= usize::MAX by {
                assert(rest[i] == lines[i]);
            }
        }
        lemma_joined_ascii(rest);
        assert(is_ascii_chars(lines[lines.len() - 1]@));
        is_ascii_chars_concat(joined(lines), joined(rest), lines.last()@);
    }
}

/// Both tables hold ASCII tokens only.
proof fn lemma_vocab_ascii(v: Vocabulary)
    ensures
        all_ascii(vocab_tokens(v)),
{
    reveal_strlit(" ");
    reveal_strlit("\n");
    reveal_strlit("et");
    reveal_strlit("est");
    reveal_strlit("elit");
    reveal_strlit("wasd");
    reveal_strlit("dolor");
    reveal_strlit("labore");
    reveal_strlit("eiusmod");
    reveal_strlit("aliquaer");
    reveal_strlit("adipisici");
    reveal_strlit("0");
    reveal_strlit("1");
    reveal_strlit("2");
    reveal_strlit("3");
    reveal_strlit("4");
    reveal_strlit("5");
    reveal_strlit("6");
    reveal_strlit("7");
    reveal_strlit("8");
    reveal_strlit("9");
}

/// An ordered sequence of filler tokens.
#[derive(Clone, Debug)]
pub struct Content {
    pub lines: Vec<&'static str>,
}

impl Content {
    /// Empty content.
    pub fn new() -> (r: Content)
        ensures
            r.lines@.len() == 0,
    {
        Content { lines: Vec::new() }
    }

    /// Content made of the given tokens, in their order.
    pub fn from(lines: Vec<&'static str>) -> (r: Content)
        ensures
            r.lines@ == lines@,
    {
        Content { lines }
    }

    /// Appends tokens drawn at random from `vocab` until the bytes counted
    /// reach `size`, counting one token behind, and making at most `size`
    /// draws.
    pub fn fill(&mut self, size: u64, vocab: Vocabulary, rng: &mut StdRng) -> (r: &mut Self)
        ensures
            *final(self) == *final(r),
            r.lines@.len() >= old(self).lines@.len(),
            r.lines@.subrange(0, old(self).lines@.len() as int) == old(self).lines@,
            forall|k: int|
                old(self).lines@.len() <= k < r.lines@.len() ==> vocab_tokens(vocab).contains(
                    #[trigger] r.lines@[k],
                ),
            fill_stops(
                last_bytes(old(self).lines@),
                r.lines@.subrange(old(self).lines@.len() as int, r.lines@.len() as int),
                size,
            ),
    {
        let ghost start = self.lines@;
        let ghost base = last_bytes(start);
        let table = vocab.tokens();
        let mut length: u64 = 0;
        let mut drawn: u64 = 0;
        let mut stop = false;
        while !stop && drawn < size
            invariant
                base == last_bytes(start),
                table@ == vocab_tokens(vocab),
                drawn <= size,
                self.lines@.len() == start.len() + drawn,
                self.lines@.subrange(0, start.len() as int) == start,
                forall|k: int|
                    start.len() <= k < self.lines@.len() ==> vocab_tokens(vocab).contains(
                        #[trigger] self.lines@[k],
                    ),
                drawn == 0 && !stop ==> length == 0,
                drawn > 0 && !stop ==> length as nat == base + byte_len(
                    self.lines@.subrange(start.len() as int, self.lines@.len() as int).drop_last(),
                ),
                drawn > 0 && !stop ==> length < size,
                drawn > 0 ==> base + byte_len(
                    self.lines@.subrange(start.len() as int, self.lines@.len() as int).drop_last(),
                ) < size,
                stop ==> base + byte_len(
                    self.lines@.subrange(start.len() as int, self.lines@.len() as int),
                ) >= size,
            decreases size - drawn, if stop { 0int } else { 1int },
        {
            let ghost before = self.lines@;
            let n = self.lines.len();
            let last: usize = if n > 0 {
                self.lines[n - 1].len()
            } else {
                0
            };
            let ghost new_before = before.subrange(start.len() as int, before.len() as int);
            proof {
                if drawn > 0 {
                    assert(new_before.last() == before.last());
                    assert(length as nat + last as nat == base + byte_len(new_before));
                } else {
                    assert(before =~= start);
                }
            }
            length = length.saturating_add(last as u64);
            if length >= size {
                stop = true;
            } else {
                let i = draw_below(rng, table.len());
                proof {
                    assert(vocab_tokens(vocab).contains(table@[i as int]));
                }
                self.lines.push(table[i]);
                drawn = drawn + 1;
                proof {
                    let new_after = self.lines@.subrange(start.len() as int, self.lines@.len() as int);
                    assert(new_after.drop_last() == new_before);
                    assert(self.lines@.subrange(0, start.len() as int) == start);
                }
            }
        }
        self
    }

    /// Fills the content with random words and blanks, drawn with `rng`
    /// as [`Content::fill`] draws them.
    pub fn genrand_content(&mut self, size: u64, rng: &mut StdRng) -> (r: &mut Self)
        ensures
            *final(self) == *final(r),
            r.lines@.len() >= old(self).lines@.len(),
            r.lines@.subrange(0, old(self).lines@.len() as int) == old(self).lines@,
            forall|k: int|
                old(self).lines@.len() <= k < r.lines@.len() ==> vocab_tokens(
                    Vocabulary::Words,
                ).contains(#[trigger] r.lines@[k]),
            fill_stops(
                last_bytes(old(self).lines@),
                r.lines@.subrange(old(self).lines@.len() as int, r.lines@.len() as int),
                size,
            ),
    {
        self.fill(size, Vocabulary::Words, rng)
    }

    /// Fills the content with random digits and blanks, drawn with `rng`
    /// as [`Content::fill`] draws them.
    pub fn genrand_num(&mut self, size: u64, rng: &mut StdRng) -> (r: &mut Self)
        ensures
            *final(self) == *final(r),
            r.lines@.len() >= old(self).lines@.len(),
            r.lines@.subrange(0, old(self).lines@.len() as int) == old(self).lines@,
            forall|k: int|
                old(self).lines@.len() <= k < r.lines@.len() ==> vocab_tokens(
                    Vocabulary::Numbers,
                ).contains(#[trigger] r.lines@[k]),
            fill_stops(
                last_bytes(old(self).lines@),
                r.lines@.subrange(old(self).lines@.len() as int, r.lines@.len() as int),
                size,
            ),
    {
        self.fill(size, Vocabulary::Numbers, rng)
    }

    /// Drops the last token, then brings the content to exactly `size`
    /// bytes. Where the remaining tokens fit, the missing bytes are added as
    /// `-` tokens, one byte each. Where they do not, the text is cut after
    /// `size` bytes: the tokens before the cut stay whole and the one in
    /// which it falls is shortened. Returns a copy of the result.
    pub fn shrink_to_size(&mut self, size: u64) -> (r: Content)
        requires
            all_ascii(old(self).lines@),
        ensures
            all_ascii(final(self).lines@),
            joined(final(self).lines@) == fitted(joined(dropped_last(old(self).lines@)), size as nat),
            byte_len(final(self).lines@) == size,
            byte_len(dropped_last(old(self).lines@)) <= size ==> final(self).lines@
                == dropped_last(old(self).lines@) + dash_tokens(
                (size - byte_len(dropped_last(old(self).lines@))) as nat,
            ),
            byte_len(dropped_last(old(self).lines@)) > size ==> cut_tokens(
                dropped_last(old(self).lines@),
                final(self).lines@,
                size,
            ),
            r.lines@ == final(self).lines@,
    {
        let _ = self.lines.pop();
        let ghost kept = self.lines@;
        assert(all_ascii(kept)) by {
            assert forall|j: int| 0 <= j < kept.len() implies is_ascii_chars(#[trigger] kept[j]@)
                && kept[j]@.len() <= usize::MAX by {
                assert(kept[j] == old(self).lines@[j]);
            }
        }
        proof {
            lemma_ascii_byte_len(kept);
        }
        // How many bytes are missing, if the tokens fit at all.
        let mut room: u64 = size;
        let mut fits = true;
        let mut i: usize = 0;
        while i < self.lines.len() && fits
            invariant
                self.lines@ == kept,
                i <= kept.len(),
                fits ==> room + joined(kept.take(i as int)).len() == size,
                !fits ==> joined(kept.take(i as int)).len() > size,
            decreases kept.len() - i,
        {
            let chars = self.lines[i].unicode_len();
            proof {
                lemma_joined_take_next(kept, i as int);
            }
            if chars as u64 <= room {
                room = room - chars as u64;
            } else {
                fits = false;
            }
            i = i + 1;
        }
        proof {
            lemma_joined_split(kept, i as int);
            if fits {
                assert(kept.take(i as int) =~= kept);
            }
        }
        if fits {
            let mut k: u64 = 0;
            while k < room
                invariant
                    k <= room,
                    self.lines@ == kept + dash_tokens(k as nat),
                    all_ascii(self.lines@),
                    joined(self.lines@) == joined(kept) + dashes(k as nat),
                decreases room - k,
            {
                let ghost prev = self.lines@;
                self.lines.push("-");
                k = k + 1;
                proof {
                    reveal_strlit("-");
                    lemma_joined_push(prev, "-");
                    assert(self.lines@ =~= kept + dash_tokens(k as nat));
                    assert(joined(self.lines@) =~= joined(kept) + dashes(k as nat));
                }
            }
            proof {
                assert(joined(kept) + dashes(0) =~= joined(kept));
                lemma_ascii_byte_len(self.lines@);
            }
            return Content { lines: self.lines.clone() };
        }
        let mut out: Vec<&'static str> = Vec::new();
        let mut length: u64 = 0;
        i = 0;
        while i < self.lines.len() && length < size
            invariant
                self.lines@ == kept,
                all_ascii(kept),
                joined(kept).len() > size,
                i <= kept.len(),
                length <= size,
                all_ascii(out@),
                joined(out@).len() == length,
                joined(out@) == joined(kept.take(i as int)).take(length as int),
                length <= joined(kept.take(i as int)).len(),
                length < size ==> length == joined(kept.take(i as int)).len(),
                length < size ==> out@ == kept.take(i as int),
                out@.len() <= i,
                size == 0 ==> out@.len() == 0,
                length == size && size > 0 ==> {
                    &&& i > 0
                    &&& out@.len() == i
                    &&& out@.drop_last() == kept.take(i - 1)
                    &&& out@.last()@.len() > 0
                    &&& out@.last()@ == kept[i - 1]@.take(out@.last()@.len() as int)
                },
            decreases kept.len() - i,
        {
            let t = self.lines[i];
            let chars = t.unicode_len();
            let room = size - length;
            proof {
                lemma_joined_take_next(kept, i as int);
                assert(t == kept[i as int]);
                assert(joined(out@) =~= joined(kept.take(i as int)));
            }
            let ghost prev = out@;
            if chars as u64 <= room {
                out.push(t);
                length = length + chars as u64;
                proof {
                    lemma_joined_push(prev, t);
                    assert(joined(out@) =~= joined(kept.take(i + 1)).take(length as int));
                    assert(out@ =~= kept.take(i + 1));
                    assert(out@.drop_last() =~= kept.take(i as int));
                    assert(t@ =~= t@.take(t@.len() as int));
                }
            } else {
                let part = t.substring_ascii(0, room as usize);
                out.push(part);
                length = size;
                proof {
                    lemma_joined_push(prev, part);
                    assert(joined(out@) =~= joined(kept.take(i + 1)).take(length as int));
                    assert(out@.drop_last() =~= kept.take(i as int));
                    assert(part@ =~= t@.take(part@.len() as int));
                }
            }
            i = i + 1;
        }
        proof {
            lemma_joined_split(kept, i as int);
            if length < size {
                assert(kept.take(i as int) =~= kept);
            }
            assert(joined(kept).take(size as int) =~= joined(out@));
            lemma_ascii_byte_len(out@);
            if size > 0 {
                assert(length == size);
                assert forall|j: int| 0 <= j < out@.len() - 1 implies out@[j] == kept[j] by {
                    assert(out@[j] == out@.drop_last()[j]);
                }
                assert(out@.len() > 0);
            }
            assert(cut_tokens(kept, out@, size));
        }
        self.lines = out;
        Content { lines: self.lines.clone() }
    }

    /// Writes the tokens one after another into one string, joining them in
    /// parallel.
    pub fn collect_string(self) -> (r: String)
        ensures
            r@ == joined(self.lines@),
    {
        par_join(self.lines)
    }
}

/// Byte length of the last token, or 0 for no tokens.
pub open spec fn last_bytes(lines: Seq<&str>) -> nat {
    if lines.len() == 0 {
        0
    } else {
        token_bytes(lines.last())
    }
}

/// How a random fill ends. `base` counts the bytes of the token that stood
/// last before the fill, `drawn` are the tokens it appended. Each draw is
/// preceded by a check of the bytes counted so far against `size`, one token
/// behind: at most `size` draws are made, the last one was made while the
/// count was below `size`, and a stop before the last draw means that the
/// count reached `size`.
pub open spec fn fill_stops(base: nat, drawn: Seq<&str>, size: u64) -> bool {
    &&& drawn.len() <= size
    &&& (drawn.len() > 0 ==> base + byte_len(drawn.drop_last()) < size)
    &&& (drawn.len() < size ==> base + byte_len(drawn) >= size)
}

/// Relies on rand's `Rng::gen_range`: a value of `0..bound`. It panics only
/// on an empty range.
#[verifier::external_body]
fn draw_below(rng: &mut StdRng, bound: usize) -> (r: usize)
    requires
        bound > 0,
    ensures
        r < bound,
{
    rng.gen_range(0..bound)
}

/// Filler text of exactly `size` bytes: tokens drawn from `vocab` with
/// `rng` as [`Content::fill`] draws them, the last one dropped, then fitted
/// to `size` bytes as [`Content::shrink_to_size`] does.
pub fn generate(size: u64, vocab: Vocabulary, rng: &mut StdRng) -> (r: String)
    ensures
        encode_utf8(r@).len() == size,
        r@.len() == size,
        is_ascii_chars(r@),
        exists|drawn: Seq<&str>|
            {
                &&& forall|k: int| 0 <= k < drawn.len() ==> vocab_tokens(vocab).contains(#[trigger] drawn[k])
                &&& fill_stops(0, drawn, size)
                &&& r@ == fitted(joined(dropped_last(drawn)), size as nat)
            },
{
    let mut content = Content::new();
    content.fill(size, vocab, rng);
    let ghost drawn = content.lines@;
    proof {
        assert(drawn.subrange(0, 0) =~= drawn.subrange(0, drawn.len() as int).take(0));
        assert(drawn.subrange(0, drawn.len() as int) =~= drawn);
        lemma_vocab_ascii(vocab);
        assert forall|k: int| 0 <= k < drawn.len() implies is_ascii_chars(#[trigger] drawn[k]@)
            && drawn[k]@.len() <= usize::MAX by {
            let j = choose|j: int| 0 <= j < vocab_tokens(vocab).len() && vocab_tokens(vocab)[j] == drawn[k];
            assert(vocab_tokens(vocab)[j] == drawn[k]);
        }
    }
    let fit = content.shrink_to_size(size);
    let r = fit.collect_string();
    proof {
        lemma_joined_ascii(fit.lines@);
        is_ascii_chars_encode_utf8(r@);
    }
    r
}

/// Relies on rayon's `FromParallelIterator<&str>` for `String`: the string
/// slices of an indexed parallel iterator are appended in their order.
#[verifier::external_body]
fn par_join(lines: Vec<&'static str>) -> (r: String)
    ensures
        r@ == joined(lines@),
{
    lines.into_par_iter().collect::<String>()
}

} // verus!
