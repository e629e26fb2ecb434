//! The scoring and segmentation engine.
//!
//! A [`Parser`] owns an immutable weight table and a base score derived
//! from it once, at construction.  For every position between two adjacent
//! characters of a sentence it sums the base score and the weights of
//! thirteen overlapping context features, and splits wherever the sum is
//! positive.

use vstd::prelude::*;
use vstd::seq_lib::lemma_flatten_concat;
use vstd::string::*;

use crate::models::Model;

verus! {

broadcast use vstd::string::group_string_axioms;

/// A parser holding an immutable weight table and the base score derived
/// from it.
pub struct Parser {
    model: Model,
    base_score: i64,
}

/// The base score derived from a table whose weights sum to `total`:
/// the negated half of `total + 1`, the quotient truncated toward zero.
pub open spec fn base_score_of(total: int) -> int {
    if total + 1 >= 0 {
        -((total + 1) / 2)
    } else {
        (-(total + 1)) / 2
    }
}

/// The characters of `s` from `lo` to `hi`, both clamped into `[0, len]`;
/// empty when the clamped bounds meet or cross.
pub open spec fn clamp_window(s: Seq<char>, lo: int, hi: int) -> Seq<char> {
    let n = s.len() as int;
    let a = if lo < 0 {
        0
    } else if lo > n {
        n
    } else {
        lo
    };
    let b = if hi < a {
        a
    } else if hi > n {
        n
    } else {
        hi
    };
    s.subrange(a, b)
}

/// The views of the chunks in `ts`.
pub open spec fn seq_of_views(ts: Seq<&str>) -> Seq<Seq<char>> {
    ts.map_values(|t: &str| t@)
}

/// The positions in `xs` as mathematical integers.
pub open spec fn seq_as_ints(xs: Seq<usize>) -> Seq<int> {
    xs.map_values(|x: usize| x as int)
}

/// The score of a split between characters `i - 1` and `i` of `s`: the
/// base score plus the weights of the six one-character, three
/// two-character and four three-character context windows around `i`.
pub open spec fn score_at(p: Parser, s: Seq<char>, i: int) -> int {
    p.base_of() + p.model_of().weight("UW1"@, clamp_window(s, i - 3, i - 2)) + p.model_of().weight(
        "UW2"@,
        clamp_window(s, i - 2, i - 1),
    ) + p.model_of().weight("UW3"@, clamp_window(s, i - 1, i)) + p.model_of().weight(
        "UW4"@,
        clamp_window(s, i, i + 1),
    ) + p.model_of().weight("UW5"@, clamp_window(s, i + 1, i + 2)) + p.model_of().weight(
        "UW6"@,
        clamp_window(s, i + 2, i + 3),
    ) + p.model_of().weight("BW1"@, clamp_window(s, i - 2, i)) + p.model_of().weight(
        "BW2"@,
        clamp_window(s, i - 1, i + 1),
    ) + p.model_of().weight("BW3"@, clamp_window(s, i, i + 2)) + p.model_of().weight(
        "TW1"@,
        clamp_window(s, i - 3, i),
    ) + p.model_of().weight("TW2"@, clamp_window(s, i - 2, i + 1)) + p.model_of().weight(
        "TW3"@,
        clamp_window(s, i - 1, i + 2),
    ) + p.model_of().weight("TW4"@, clamp_window(s, i, i + 3))
}

/// The boundary positions of `s` below `upto`, in increasing order: every
/// interior position `i` with `1 <= i < upto` whose score is positive.
pub open spec fn boundaries_upto(p: Parser, s: Seq<char>, upto: int) -> Seq<int>
    decreases upto,
{
    if upto <= 1 {
        Seq::empty()
    } else if score_at(p, s, upto - 1) > 0 {
        boundaries_upto(p, s, upto - 1).push(upto - 1)
    } else {
        boundaries_upto(p, s, upto - 1)
    }
}

/// All boundary positions of `s`: the interior positions with a positive
/// score, in increasing order.
pub open spec fn boundary_positions(p: Parser, s: Seq<char>) -> Seq<int> {
    boundaries_upto(p, s, s.len() as int)
}

/// `s` cut at the positions in `cuts`, starting from `start`: one chunk
/// per gap, and a final chunk running to the end of `s`.
pub open spec fn chunks_from(s: Seq<char>, cuts: Seq<int>, start: int) -> Seq<Seq<char>>
    decreases cuts.len(),
{
    if cuts.len() == 0 {
        seq![s.subrange(start, s.len() as int)]
    } else {
        seq![s.subrange(start, cuts[0])] + chunks_from(s, cuts.skip(1), cuts[0])
    }
}

/// The chunks of `s`: `s` cut at every boundary position, or no chunks at
/// all when `s` is empty.
pub open spec fn chunk_seqs(p: Parser, s: Seq<char>) -> Seq<Seq<char>> {
    if s.len() == 0 {
        Seq::empty()
    } else {
        chunks_from(s, boundary_positions(p, s), 0)
    }
}

/// Every boundary position below `upto` lies in `[1, upto)`, and the
/// positions are strictly increasing.
pub proof fn lemma_boundaries_upto_props(p: Parser, s: Seq<char>, upto: int)
    ensures
        forall|j: int|
            0 <= j < boundaries_upto(p, s, upto).len() ==> 1 <= #[trigger] boundaries_upto(
                p,
                s,
                upto,
            )[j] < upto,
        forall|j1: int, j2: int|
            0 <= j1 < j2 < boundaries_upto(p, s, upto).len() ==> boundaries_upto(p, s, upto)[j1]
                < boundaries_upto(p, s, upto)[j2],
    decreases upto,
{
    if upto > 1 {
        lemma_boundaries_upto_props(p, s, upto - 1);
        let prev = boundaries_upto(p, s, upto - 1);
        let cur = boundaries_upto(p, s, upto);
        if score_at(p, s, upto - 1) > 0 {
            assert(cur == prev.push(upto - 1));
            assert(forall|j: int| 0 <= j < prev.len() ==> cur[j] == prev[j]);
            assert(cur[prev.len() as int] == upto - 1);
        }
    }
}

/// Cutting and concatenating loses nothing: the chunks of `s` from
/// `start`, joined back together, are exactly `s` from `start` on.
proof fn lemma_chunks_flatten(s: Seq<char>, cuts: Seq<int>, start: int)
    requires
        0 <= start <= s.len(),
        forall|j: int| 0 <= j < cuts.len() ==> start <= #[trigger] cuts[j] <= s.len(),
        forall|j1: int, j2: int| 0 <= j1 < j2 < cuts.len() ==> cuts[j1] <= cuts[j2],
    ensures
        chunks_from(s, cuts, start).flatten() == s.subrange(start, s.len() as int),
    decreases cuts.len(),
{
    let chunks = chunks_from(s, cuts, start);
    if cuts.len() == 0 {
        chunks.lemma_flatten_one_element();
        assert(chunks.first() == s.subrange(start, s.len() as int));
    } else {
        let head = seq![s.subrange(start, cuts[0])];
        let rest = chunks_from(s, cuts.skip(1), cuts[0]);
        assert(forall|j: int| 0 <= j < cuts.skip(1).len() ==> cuts.skip(1)[j] == cuts[j + 1]);
        lemma_chunks_flatten(s, cuts.skip(1), cuts[0]);
        lemma_flatten_concat(head, rest);
        head.lemma_flatten_one_element();
        assert(head.first() == s.subrange(start, cuts[0]));
        assert(s.subrange(start, cuts[0]) + s.subrange(cuts[0], s.len() as int) =~= s.subrange(
            start,
            s.len() as int,
        ));
    }
}

/// With strictly increasing cuts strictly inside `(start, len)`, no chunk
/// is empty.
proof fn lemma_chunks_nonempty(s: Seq<char>, cuts: Seq<int>, start: int)
    requires
        0 <= start < s.len(),
        forall|j: int| 0 <= j < cuts.len() ==> start < #[trigger] cuts[j] < s.len(),
        forall|j1: int, j2: int| 0 <= j1 < j2 < cuts.len() ==> cuts[j1] < cuts[j2],
    ensures
        forall|k: int|
            0 <= k < chunks_from(s, cuts, start).len() ==> #[trigger] chunks_from(
                s,
                cuts,
                start,
            )[k].len() > 0,
    decreases cuts.len(),
{
    let chunks = chunks_from(s, cuts, start);
    if cuts.len() == 0 {
        assert(chunks[0].len() > 0);
    } else {
        assert(forall|j: int| 0 <= j < cuts.skip(1).len() ==> cuts.skip(1)[j] == cuts[j + 1]);
        lemma_chunks_nonempty(s, cuts.skip(1), cuts[0]);
        let rest = chunks_from(s, cuts.skip(1), cuts[0]);
        assert(forall|k: int| 0 <= k < rest.len() ==> chunks[k + 1] == rest[k]);
        assert(chunks[0].len() > 0);
    }
}

proof fn lemma_boundaries_upto_empty(p: Parser, s: Seq<char>, upto: int)
    requires
        forall|i: int| score_at(p, s, i) <= 0,
    ensures
        boundaries_upto(p, s, upto) == Seq::<int>::empty(),
    decreases upto,
{
    if upto > 1 {
        lemma_boundaries_upto_empty(p, s, upto - 1);
    }
}

proof fn lemma_boundaries_upto_agree(p1: Parser, p2: Parser, s: Seq<char>, upto: int)
    requires
        forall|i: int| score_at(p1, s, i) == score_at(p2, s, i),
    ensures
        boundaries_upto(p1, s, upto) == boundaries_upto(p2, s, upto),
    decreases upto,
{
    if upto > 1 {
        lemma_boundaries_upto_agree(p1, p2, s, upto - 1);
    }
}

/// An empty table never splits: when every weight is 0 and the weights
/// sum to 0, the base score is 0, every position scores exactly 0, and no
/// boundary is emitted — a non-empty sentence comes back as one chunk.
pub proof fn lemma_empty_table_never_splits(p: Parser, s: Seq<char>)
    requires
        p.wf(),
        p.model_of().total_of() == 0,
        forall|g: Seq<char>, n: Seq<char>| p.model_of().weight(g, n) == 0,
    ensures
        p.base_of() == 0,
        boundary_positions(p, s) == Seq::<int>::empty(),
        s.len() > 0 ==> chunk_seqs(p, s) == seq![s],
{
    assert(p.base_of() == 0);
    assert(forall|i: int| score_at(p, s, i) <= 0);
    lemma_boundaries_upto_empty(p, s, s.len() as int);
    if s.len() > 0 {
        assert(s.subrange(0, s.len() as int) =~= s);
        assert(chunk_seqs(p, s) == seq![s.subrange(0, s.len() as int)]);
    }
}

/// Determinism: two well-formed parsers whose tables agree — the same
/// total weight and the same weight for every feature group and n-gram —
/// yield the same boundaries and the same chunks on every input.
pub proof fn lemma_equal_tables_parse_alike(p1: Parser, p2: Parser, s: Seq<char>)
    requires
        p1.wf(),
        p2.wf(),
        p1.model_of().total_of() == p2.model_of().total_of(),
        forall|g: Seq<char>, n: Seq<char>|
            p1.model_of().weight(g, n) == #[trigger] p2.model_of().weight(g, n),
    ensures
        boundary_positions(p1, s) == boundary_positions(p2, s),
        chunk_seqs(p1, s) == chunk_seqs(p2, s),
{
    assert(forall|i: int| score_at(p1, s, i) == score_at(p2, s, i));
    lemma_boundaries_upto_agree(p1, p2, s, s.len() as int);
}

/// `i - d`, stopping at 0 instead of wrapping.
fn sub_clamp(i: usize, d: usize) -> (r: usize)
    ensures
        r as int == (if (i as int - d as int) < 0 {
            0int
        } else {
            i as int - d as int
        }),
{
    if i < d {
        0
    } else {
        i - d
    }
}

/// `i + d`, stopping at `n` instead of overflowing.
fn add_clamp(i: usize, d: usize, n: usize) -> (r: usize)
    requires
        i <= n,
    ensures
        r as int == (if (i as int + d as int) > n as int {
            n as int
        } else {
            i as int + d as int
        }),
{
    let rem: usize = n - i;
    if d >= rem {
        n
    } else {
        i + d
    }
}

/// The substring of `sentence` between the character positions `lo` and
/// `hi`, both clamped to the character length `n`.
fn window_of<'a>(sentence: &'a str, n: usize, lo: usize, hi: usize) -> (r: &'a str)
    requires
        lo <= hi,
        n as int == sentence@.len(),
    ensures
        r@ == clamp_window(sentence@, lo as int, hi as int),
{
    let a: usize = if lo > n {
        n
    } else {
        lo
    };
    let b: usize = if hi > n {
        n
    } else {
        hi
    };
    sentence.substring_char(a, b)
}

impl Parser {
    /// The weight table this parser scores with.
    pub closed spec fn model_of(self) -> Model {
        self.model
    }

    /// The base score added to every candidate position.
    pub closed spec fn base_of(self) -> int {
        self.base_score as int
    }

    /// The base score is the one derived from the table.
    pub open spec fn wf(self) -> bool {
        self.base_of() == base_score_of(self.model_of().total_of())
    }

    /// Constructs a parser over `model`, deriving the base score from the
    /// sum of all weights in the table.  Accepts any table, including an
    /// empty one.
    pub fn new(model: Model) -> (p: Parser)
        ensures
            p.model_of() == model,
            p.base_of() == base_score_of(model.total_of()),
            p.wf(),
    {
        let total: i64 = model.weight_total();
        let base_score: i64 = if total >= 0 {
            let h: u64 = ((total as u64) + 1) / 2;
            -(h as i64)
        } else {
            let m: u64 = (-(total + 1)) as u64;
            (m / 2) as i64
        };
        Parser { model, base_score }
    }

    /// Looks up the weight of `value` under the feature group `key` in the
    /// parser's table; 0 when either is absent.
    fn get_score(&self, key: &str, value: &str) -> (w: i64)
        ensures
            w as int == self.model_of().weight(key@, value@),
    {
        self.model.get(key, value)
    }

    /// Returns the boundary positions of `sentence`: the character indices
    /// strictly between 0 and the character length whose score is
    /// positive, in strictly increasing order.  A sentence of fewer than
    /// two characters has no boundaries.
    pub fn parse_boundaries(&self, sentence: &str) -> (result: Vec<usize>)
        ensures
            seq_as_ints(result@) == boundary_positions(*self, sentence@),
            forall|j: int| 0 <= j < result@.len() ==> 0 < #[trigger] result@[j] < sentence@.len(),
            forall|j1: int, j2: int|
                0 <= j1 < j2 < result@.len() ==> result@[j1] < result@[j2],
    {
        let n: usize = sentence.unicode_len();
        let mut result: Vec<usize> = Vec::new();
        let mut i: usize = 1;
        while i < n
            invariant
                n as int == sentence@.len(),
                1 <= i,
                n > 0 ==> i <= n,
                n == 0 ==> i == 1,
                seq_as_ints(result@) == boundaries_upto(*self, sentence@, i as int),
            decreases n as int - i as int,
        {
            let w_uw1: &str = window_of(sentence, n, sub_clamp(i, 3), sub_clamp(i, 2));
            let w_uw2: &str = window_of(sentence, n, sub_clamp(i, 2), sub_clamp(i, 1));
            let w_uw3: &str = window_of(sentence, n, sub_clamp(i, 1), i);
            let w_uw4: &str = window_of(sentence, n, i, add_clamp(i, 1, n));
            let w_uw5: &str = window_of(sentence, n, add_clamp(i, 1, n), add_clamp(i, 2, n));
            let w_uw6: &str = window_of(sentence, n, add_clamp(i, 2, n), add_clamp(i, 3, n));
            let w_bw1: &str = window_of(sentence, n, sub_clamp(i, 2), i);
            let w_bw2: &str = window_of(sentence, n, sub_clamp(i, 1), add_clamp(i, 1, n));
            let w_bw3: &str = window_of(sentence, n, i, add_clamp(i, 2, n));
            let w_tw1: &str = window_of(sentence, n, sub_clamp(i, 3), i);
            let w_tw2: &str = window_of(sentence, n, sub_clamp(i, 2), add_clamp(i, 1, n));
            let w_tw3: &str = window_of(sentence, n, sub_clamp(i, 1), add_clamp(i, 2, n));
            let w_tw4: &str = window_of(sentence, n, i, add_clamp(i, 3, n));
            let mut score: i128 = self.base_score as i128;
            score = score + (self.get_score("UW1", w_uw1) as i128);
            score = score + (self.get_score("UW2", w_uw2) as i128);
            score = score + (self.get_score("UW3", w_uw3) as i128);
            score = score + (self.get_score("UW4", w_uw4) as i128);
            score = score + (self.get_score("UW5", w_uw5) as i128);
            score = score + (self.get_score("UW6", w_uw6) as i128);
            score = score + (self.get_score("BW1", w_bw1) as i128);
            score = score + (self.get_score("BW2", w_bw2) as i128);
            score = score + (self.get_score("BW3", w_bw3) as i128);
            score = score + (self.get_score("TW1", w_tw1) as i128);
            score = score + (self.get_score("TW2", w_tw2) as i128);
            score = score + (self.get_score("TW3", w_tw3) as i128);
            score = score + (self.get_score("TW4", w_tw4) as i128);
            proof {
                assert(score == score_at(*self, sentence@, i as int));
            }
            let ghost before = result@;
            if score > 0 {
                result.push(i);
                proof {
                    assert(seq_as_ints(result@) =~= seq_as_ints(before).push(i as int));
                }
            }
            i = i + 1;
        }
        proof {
            if n <= 1 {
                assert(boundaries_upto(*self, sentence@, n as int) =~= Seq::<int>::empty());
                assert(boundaries_upto(*self, sentence@, i as int) =~= Seq::<int>::empty());
            }
            lemma_boundaries_upto_props(*self, sentence@, sentence@.len() as int);
            assert(forall|j: int|
                0 <= j < result@.len() ==> seq_as_ints(result@)[j] == #[trigger] result@[j] as int);
        }
        result
    }

    /// Splits `sentence` at its boundary positions and returns the chunks
    /// in order.  An empty sentence yields no chunks; otherwise the chunks
    /// are all non-empty and concatenating them restores the sentence
    /// exactly.
    pub fn parse<'a>(&self, sentence: &'a str) -> (result: Vec<&'a str>)
        ensures
            seq_of_views(result@) == chunk_seqs(*self, sentence@),
            sentence@.len() == 0 ==> result@.len() == 0,
            seq_of_views(result@).flatten() == sentence@,
            forall|k: int| 0 <= k < result@.len() ==> (#[trigger] result@[k])@.len() > 0,
    {
        if sentence.is_empty() {
            let result: Vec<&'a str> = Vec::new();
            proof {
                assert(seq_of_views(result@) =~= Seq::<Seq<char>>::empty());
                assert(Seq::<Seq<char>>::empty().flatten() =~= Seq::<char>::empty());
                assert(sentence@ =~= Seq::<char>::empty());
            }
            return result;
        }
        let n: usize = sentence.unicode_len();
        let boundaries: Vec<usize> = self.parse_boundaries(sentence);
        let ghost cuts = boundary_positions(*self, sentence@);
        let mut result: Vec<&'a str> = Vec::new();
        let mut start: usize = 0;
        let mut k: usize = 0;
        proof {
            assert(cuts.skip(0) =~= cuts);
            assert(seq_of_views(result@) =~= Seq::<Seq<char>>::empty());
            assert(Seq::<Seq<char>>::empty() + chunks_from(sentence@, cuts, 0) =~= chunks_from(
                sentence@,
                cuts,
                0,
            ));
        }
        while k < boundaries.len()
            invariant
                n as int == sentence@.len(),
                n > 0,
                seq_as_ints(boundaries@) == cuts,
                cuts == boundary_positions(*self, sentence@),
                forall|j: int| 0 <= j < boundaries@.len() ==> 0 < #[trigger] boundaries@[j] < n,
                forall|j1: int, j2: int|
                    0 <= j1 < j2 < boundaries@.len() ==> boundaries@[j1] < boundaries@[j2],
                k <= boundaries@.len(),
                k == 0 ==> start == 0,
                k > 0 ==> start as int == cuts[k - 1],
                start < n,
                seq_of_views(result@) + chunks_from(sentence@, cuts.skip(k as int), start as int)
                    == chunks_from(sentence@, cuts, 0),
            decreases boundaries@.len() - k,
        {
            let b: usize = boundaries[k];
            proof {
                assert(cuts[k as int] == boundaries@[k as int] as int);
                assert(start < b);
                assert(b < n);
            }
            let ghost before = result@;
            let piece: &'a str = sentence.substring_char(start, b);
            result.push(piece);
            proof {
                assert(cuts.skip(k as int)[0] == cuts[k as int]);
                assert(cuts.skip(k as int).skip(1) =~= cuts.skip(k as int + 1));
                assert(seq_of_views(result@) =~= seq_of_views(before).push(piece@));
                assert(seq_of_views(before).push(piece@) + chunks_from(
                    sentence@,
                    cuts.skip(k as int + 1),
                    b as int,
                ) =~= seq_of_views(before) + chunks_from(sentence@, cuts.skip(k as int), start as int));
            }
            start = b;
            k = k + 1;
        }
        let ghost before = result@;
        let piece: &'a str = sentence.substring_char(start, n);
        result.push(piece);
        proof {
            assert(cuts.skip(k as int) =~= Seq::<int>::empty());
            assert(chunks_from(sentence@, cuts.skip(k as int), start as int) =~= seq![piece@]);
            assert(seq_of_views(result@) =~= seq_of_views(before).push(piece@));
            assert(seq_of_views(before).push(piece@) =~= seq_of_views(before) + seq![piece@]);
            lemma_boundaries_upto_props(*self, sentence@, sentence@.len() as int);
            lemma_chunks_flatten(sentence@, cuts, 0);
            assert(sentence@.subrange(0, sentence@.len() as int) =~= sentence@);
            lemma_chunks_nonempty(sentence@, cuts, 0);
            assert(forall|j: int|
                0 <= j < result@.len() ==> seq_of_views(result@)[j] == (
                #[trigger] result@[j])@);
        }
        result
    }

    /// Loads a parser equipped with the built-in Japanese model: a compact
    /// table of punctuation and kana cues whose weights sum to 0.
    pub fn load_default_japanese_parser() -> (p: Parser)
        ensures
            p.wf(),
            p.model_of().total_of() == 0,
            p.model_of().weight("UW3"@, "\u{3002}"@) == 6000,
            p.model_of().weight("UW3"@, "\u{3001}"@) == 6000,
            p.model_of().weight("UW3"@, "\u{306f}"@) == 6000,
            p.model_of().weight("UW4"@, "\u{3063}"@) == -6000,
            p.model_of().weight("UW4"@, "\u{30fc}"@) == -6000,
            p.model_of().weight("UW4"@, "\u{3002}"@) == -6000,
    {
        let mut model: Model = Model::new();
        model.insert("UW3", "\u{3002}", 6000);
        model.insert("UW3", "\u{3001}", 6000);
        model.insert("UW3", "\u{306f}", 6000);
        model.insert("UW4", "\u{3063}", -6000);
        model.insert("UW4", "\u{30fc}", -6000);
        model.insert("UW4", "\u{3002}", -6000);
        proof {
            // The group names and n-grams inserted above are pairwise
            // distinct, so each ensured weight reads back unchanged
            // through the later inserts.
            reveal_strlit("UW3");
            reveal_strlit("UW4");
            reveal_strlit("\u{3002}");
            reveal_strlit("\u{3001}");
            reveal_strlit("\u{306f}");
            reveal_strlit("\u{3063}");
            reveal_strlit("\u{30fc}");
            assert("UW3"@ != "UW4"@) by {
                assert("UW3"@[2] == '3');
                assert("UW4"@[2] == '4');
            }
            assert("\u{3002}"@ != "\u{3001}"@) by {
                assert("\u{3002}"@[0] == '\u{3002}');
                assert("\u{3001}"@[0] == '\u{3001}');
            }
            assert("\u{3002}"@ != "\u{306f}"@) by {
                assert("\u{3002}"@[0] == '\u{3002}');
                assert("\u{306f}"@[0] == '\u{306f}');
            }
            assert("\u{3002}"@ != "\u{3063}"@) by {
                assert("\u{3002}"@[0] == '\u{3002}');
                assert("\u{3063}"@[0] == '\u{3063}');
            }
            assert("\u{3002}"@ != "\u{30fc}"@) by {
                assert("\u{3002}"@[0] == '\u{3002}');
                assert("\u{30fc}"@[0] == '\u{30fc}');
            }
            assert("\u{3001}"@ != "\u{306f}"@) by {
                assert("\u{3001}"@[0] == '\u{3001}');
                assert("\u{306f}"@[0] == '\u{306f}');
            }
            assert("\u{3001}"@ != "\u{3063}"@) by {
                assert("\u{3001}"@[0] == '\u{3001}');
                assert("\u{3063}"@[0] == '\u{3063}');
            }
            assert("\u{3001}"@ != "\u{30fc}"@) by {
                assert("\u{3001}"@[0] == '\u{3001}');
                assert("\u{30fc}"@[0] == '\u{30fc}');
            }
            assert("\u{306f}"@ != "\u{3063}"@) by {
                assert("\u{306f}"@[0] == '\u{306f}');
                assert("\u{3063}"@[0] == '\u{3063}');
            }
            assert("\u{306f}"@ != "\u{30fc}"@) by {
                assert("\u{306f}"@[0] == '\u{306f}');
                assert("\u{30fc}"@[0] == '\u{30fc}');
            }
            assert("\u{3063}"@ != "\u{30fc}"@) by {
                assert("\u{3063}"@[0] == '\u{3063}');
                assert("\u{30fc}"@[0] == '\u{30fc}');
            }
        }
        Parser::new(model)
    }

    /// Loads a parser equipped with the built-in Simplified Chinese model:
    /// a compact table of punctuation and particle cues whose weights sum
    /// to 0.
    pub fn load_default_simplified_chinese_parser() -> (p: Parser)
        ensures
            p.wf(),
            p.model_of().total_of() == 0,
            p.model_of().weight("UW3"@, "\u{3002}"@) == 6000,
            p.model_of().weight("UW3"@, "\u{ff0c}"@) == 6000,
            p.model_of().weight("UW3"@, "\u{7684}"@) == 6000,
            p.model_of().weight("UW4"@, "\u{7684}"@) == -6000,
            p.model_of().weight("UW4"@, "\u{3002}"@) == -6000,
            p.model_of().weight("UW4"@, "\u{ff0c}"@) == -6000,
    {
        let mut model: Model = Model::new();
        model.insert("UW3", "\u{3002}", 6000);
        model.insert("UW3", "\u{ff0c}", 6000);
        model.insert("UW3", "\u{7684}", 6000);
        model.insert("UW4", "\u{7684}", -6000);
        model.insert("UW4", "\u{3002}", -6000);
        model.insert("UW4", "\u{ff0c}", -6000);
        proof {
            // The group names and n-grams inserted above are pairwise
            // distinct, so each ensured weight reads back unchanged
            // through the later inserts.
            reveal_strlit("UW3");
            reveal_strlit("UW4");
            reveal_strlit("\u{3002}");
            reveal_strlit("\u{ff0c}");
            reveal_strlit("\u{7684}");
            assert("UW3"@ != "UW4"@) by {
                assert("UW3"@[2] == '3');
                assert("UW4"@[2] == '4');
            }
            assert("\u{3002}"@ != "\u{ff0c}"@) by {
                assert("\u{3002}"@[0] == '\u{3002}');
                assert("\u{ff0c}"@[0] == '\u{ff0c}');
            }
            assert("\u{3002}"@ != "\u{7684}"@) by {
                assert("\u{3002}"@[0] == '\u{3002}');
                assert("\u{7684}"@[0] == '\u{7684}');
            }
            assert("\u{ff0c}"@ != "\u{7684}"@) by {
                assert("\u{ff0c}"@[0] == '\u{ff0c}');
                assert("\u{7684}"@[0] == '\u{7684}');
            }
        }
        Parser::new(model)
    }

    /// Loads a parser equipped with the built-in Traditional Chinese
    /// model: a compact table of punctuation and particle cues whose
    /// weights sum to 0.
    pub fn load_default_traditional_chinese_parser() -> (p: Parser)
        ensures
            p.wf(),
            p.model_of().total_of() == 0,
            p.model_of().weight("UW3"@, "\u{3002}"@) == 6000,
            p.model_of().weight("UW3"@, "\u{3001}"@) == 6000,
            p.model_of().weight("UW3"@, "\u{7684}"@) == 6000,
            p.model_of().weight("UW4"@, "\u{7684}"@) == -6000,
            p.model_of().weight("UW4"@, "\u{3002}"@) == -6000,
            p.model_of().weight("UW4"@, "\u{3001}"@) == -6000,
    {
        let mut model: Model = Model::new();
        model.insert("UW3", "\u{3002}", 6000);
        model.insert("UW3", "\u{3001}", 6000);
        model.insert("UW3", "\u{7684}", 6000);
        model.insert("UW4", "\u{7684}", -6000);
        model.insert("UW4", "\u{3002}", -6000);
        model.insert("UW4", "\u{3001}", -6000);
        proof {
            // The group names and n-grams inserted above are pairwise
            // distinct, so each ensured weight reads back unchanged
            // through the later inserts.
            reveal_strlit("UW3");
            reveal_strlit("UW4");
            reveal_strlit("\u{3002}");
            reveal_strlit("\u{3001}");
            reveal_strlit("\u{7684}");
            assert("UW3"@ != "UW4"@) by {
                assert("UW3"@[2] == '3');
                assert("UW4"@[2] == '4');
            }
            assert("\u{3002}"@ != "\u{3001}"@) by {
                assert("\u{3002}"@[0] == '\u{3002}');
                assert("\u{3001}"@[0] == '\u{3001}');
            }
            assert("\u{3002}"@ != "\u{7684}"@) by {
                assert("\u{3002}"@[0] == '\u{3002}');
                assert("\u{7684}"@[0] == '\u{7684}');
            }
            assert("\u{3001}"@ != "\u{7684}"@) by {
                assert("\u{3001}"@[0] == '\u{3001}');
                assert("\u{7684}"@[0] == '\u{7684}');
            }
        }
        Parser::new(model)
    }

    /// Loads a parser equipped with the built-in Thai model: a compact
    /// table of vowel and repetition-mark cues whose weights sum to 0.
    pub fn load_default_thai_parser() -> (p: Parser)
        ensures
            p.wf(),
            p.model_of().total_of() == 0,
            p.model_of().weight("UW3"@, "\u{0e30}"@) == 6000,
            p.model_of().weight("UW3"@, "\u{0e46}"@) == 6000,
            p.model_of().weight("UW4"@, "\u{0e30}"@) == -6000,
            p.model_of().weight("UW4"@, "\u{0e46}"@) == -6000,
    {
        let mut model: Model = Model::new();
        model.insert("UW3", "\u{0e30}", 6000);
        model.insert("UW3", "\u{0e46}", 6000);
        model.insert("UW4", "\u{0e30}", -6000);
        model.insert("UW4", "\u{0e46}", -6000);
        proof {
            // The group names and n-grams inserted above are pairwise
            // distinct, so each ensured weight reads back unchanged
            // through the later inserts.
            reveal_strlit("UW3");
            reveal_strlit("UW4");
            reveal_strlit("\u{0e30}");
            reveal_strlit("\u{0e46}");
            assert("UW3"@ != "UW4"@) by {
                assert("UW3"@[2] == '3');
                assert("UW4"@[2] == '4');
            }
            assert("\u{0e30}"@ != "\u{0e46}"@) by {
                assert("\u{0e30}"@[0] == '\u{0e30}');
                assert("\u{0e46}"@[0] == '\u{0e46}');
            }
        }
        Parser::new(model)
    }
}

} // verus!
