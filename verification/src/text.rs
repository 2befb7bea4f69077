//! The common ground of the text formats: lines, words and decimal
//! numbers, on bytes.
//!
//! A text is cut into lines at line feeds, and a line into words at blanks.
//! Empty pieces do not count, so runs of blanks and empty lines vanish.

use vstd::prelude::*;

verus! {

/// The byte that ends a line.
pub const LINE_FEED: u8 = 10;

/// The blank between two words.
pub const SPACE: u8 = 32;

/// The byte that opens a comment.
pub const HASH: u8 = 35;

/// What a text is cut at.
#[derive(Clone, Copy, Debug, PartialEq, Eq, Structural)]
pub enum Cut {
    /// At line feeds.
    Lines,
    /// At blanks: the space and the bytes from tab to carriage return.
    Words,
}

/// Whether a text is cut at the byte `b`.
pub open spec fn cuts(cut: Cut, b: u8) -> bool {
    match cut {
        Cut::Lines => b == 10,
        Cut::Words => b == 32 || (9 <= b <= 13),
    }
}

/// The pieces of `s`: the longest stretches of bytes at which the text is
/// not cut, in their order.
pub open spec fn pieces(s: Seq<u8>, cut: Cut) -> Seq<Seq<u8>>
    decreases s.len(),
{
    if s.len() == 0 {
        Seq::<Seq<u8>>::empty()
    } else {
        let before = pieces(s.drop_last(), cut);
        if cuts(cut, s.last()) {
            before
        } else if s.len() >= 2 && !cuts(cut, s[s.len() - 2]) {
            before.drop_last().push(before.last().push(s.last()))
        } else {
            before.push(seq![s.last()])
        }
    }
}

/// Whether `w` can stand as one piece: it is not empty and is not cut
/// anywhere.
pub open spec fn is_piece(w: Seq<u8>, cut: Cut) -> bool {
    w.len() > 0 && forall|i: int| 0 <= i < w.len() ==> !cuts(cut, #[trigger] w[i])
}

/// Whether a piece that follows `s` would be a piece of its own: `s` is
/// empty or ends where the text is cut.
pub open spec fn closed(s: Seq<u8>, cut: Cut) -> bool {
    s.len() == 0 || cuts(cut, s.last())
}

/// Whether the text is cut at every byte of `s`.
pub open spec fn all_cuts(s: Seq<u8>, cut: Cut) -> bool {
    forall|i: int| 0 <= i < s.len() ==> cuts(cut, #[trigger] s[i])
}

/// The byte sequences of a list of byte vectors.
pub open spec fn words_of(list: Seq<Vec<u8>>) -> Seq<Seq<u8>> {
    Seq::new(list.len(), |i: int| list[i]@)
}

/// The byte sequences of a list of lists of byte vectors.
pub open spec fn table_view(rows: Seq<Vec<Vec<u8>>>) -> Seq<Seq<Seq<u8>>> {
    Seq::new(rows.len(), |i: int| words_of(rows[i]@))
}

/// A byte at which the text is cut adds no piece.
pub proof fn lemma_pieces_cut(s: Seq<u8>, b: u8, cut: Cut)
    requires
        cuts(cut, b),
    ensures
        pieces(s.push(b), cut) == pieces(s, cut),
        closed(s.push(b), cut),
{
    assert(s.push(b).drop_last() =~= s);
}

/// Bytes at which the text is cut add no piece.
pub proof fn lemma_pieces_cuts(s: Seq<u8>, t: Seq<u8>, cut: Cut)
    requires
        all_cuts(t, cut),
    ensures
        pieces(s + t, cut) == pieces(s, cut),
        closed(s, cut) ==> closed(s + t, cut),
        t.len() > 0 ==> closed(s + t, cut),
    decreases t.len(),
{
    if t.len() == 0 {
        assert(s + t =~= s);
    } else {
        lemma_pieces_cuts(s, t.drop_last(), cut);
        assert(s + t =~= (s + t.drop_last()).push(t.last()));
        lemma_pieces_cut(s + t.drop_last(), t.last(), cut);
    }
}

/// A piece that follows a closed text is the last piece of the whole.
pub proof fn lemma_pieces_word(s: Seq<u8>, w: Seq<u8>, cut: Cut)
    requires
        closed(s, cut),
        is_piece(w, cut),
    ensures
        pieces(s + w, cut) == pieces(s, cut).push(w),
        !closed(s + w, cut),
    decreases w.len(),
{
    let whole = s + w;
    assert(whole.drop_last() =~= s + w.drop_last());
    assert(whole.last() == w.last());
    if w.len() == 1 {
        assert(s + w.drop_last() =~= s);
        assert(w =~= seq![w.last()]);
        if s.len() > 0 {
            assert(whole[whole.len() - 2] == s.last());
        }
    } else {
        let shorter = w.drop_last();
        assert(is_piece(shorter, cut)) by {
            assert forall|i: int| 0 <= i < shorter.len() implies !cuts(cut, #[trigger] shorter[i]) by {
                assert(shorter[i] == w[i]);
            }
        }
        lemma_pieces_word(s, shorter, cut);
        assert(whole[whole.len() - 2] == w[w.len() - 2]);
        let before = pieces(s, cut).push(shorter);
        assert(before.drop_last() =~= pieces(s, cut));
        assert(shorter.push(w.last()) =~= w);
    }
}

/// Cuts `text` into its pieces.
pub fn split(text: &[u8], cut: Cut) -> (list: Vec<Vec<u8>>)
    ensures
        words_of(list@) == pieces(text@, cut),
{
    let mut list: Vec<Vec<u8>> = Vec::new();
    let mut current: Vec<u8> = Vec::new();
    let mut i: usize = 0;
    while i < text.len()
        invariant
            i <= text.len(),
            current@.len() > 0 <==> i > 0 && !cuts(cut, text@[i - 1]),
            pieces(text@.subrange(0, i as int), cut) == if current@.len() > 0 {
                words_of(list@).push(current@)
            } else {
                words_of(list@)
            },
        decreases text.len() - i,
    {
        let b = text[i];
        let ghost prefix = text@.subrange(0, i as int);
        let ghost next = text@.subrange(0, i as int + 1);
        proof {
            assert(next.drop_last() =~= prefix);
            assert(next.last() == b);
            if i > 0 {
                assert(next[next.len() - 2] == text@[i - 1]);
            }
        }
        if is_cut(cut, b) {
            if current.len() > 0 {
                let ghost done = words_of(list@);
                let ghost word = current@;
                list.push(current);
                current = Vec::new();
                proof {
                    assert(words_of(list@) =~= done.push(word));
                }
            }
        } else {
            let ghost done = words_of(list@);
            let ghost word = current@;
            current.push(b);
            proof {
                if word.len() > 0 {
                    assert(done.push(word).drop_last() =~= done);
                } else {
                    assert(current@ =~= seq![b]);
                }
            }
        }
        i += 1;
    }
    proof {
        assert(text@.subrange(0, text@.len() as int) =~= text@);
    }
    if current.len() > 0 {
        let ghost done = words_of(list@);
        let ghost word = current@;
        list.push(current);
        proof {
            assert(words_of(list@) =~= done.push(word));
        }
    }
    list
}

/// Whether a text is cut at the byte `b`.
pub fn is_cut(cut: Cut, b: u8) -> (r: bool)
    ensures
        r == cuts(cut, b),
{
    match cut {
        Cut::Lines => b == 10,
        Cut::Words => b == 32 || (9 <= b && b <= 13),
    }
}

/// Whether a line is a comment: its first word starts with a hash.
pub open spec fn is_comment(words: Seq<Seq<u8>>) -> bool {
    words.len() > 0 && words[0].len() > 0 && words[0][0] == 35
}

/// The word lists of the first `k` lines that hold a word and are no
/// comment.
pub open spec fn content_of(lines: Seq<Seq<u8>>, k: int) -> Seq<Seq<Seq<u8>>>
    decreases k,
{
    if k <= 0 {
        Seq::<Seq<Seq<u8>>>::empty()
    } else {
        let before = content_of(lines, k - 1);
        let words = pieces(lines[k - 1], Cut::Words);
        if words.len() == 0 || is_comment(words) {
            before
        } else {
            before.push(words)
        }
    }
}

/// The table of a text: for every line that holds a word and is no
/// comment, its words.
pub open spec fn table_of(text: Seq<u8>) -> Seq<Seq<Seq<u8>>> {
    content_of(pieces(text, Cut::Lines), pieces(text, Cut::Lines).len() as int)
}

/// Reads the table of a text.
pub fn read_table(text: &[u8]) -> (rows: Vec<Vec<Vec<u8>>>)
    ensures
        table_view(rows@) == table_of(text@),
        forall|r: int| 0 <= r < rows@.len() ==> (#[trigger] rows@[r])@.len() > 0,
{
    let lines = split(text, Cut::Lines);
    let ghost all = pieces(text@, Cut::Lines);
    let mut rows: Vec<Vec<Vec<u8>>> = Vec::new();
    let mut i: usize = 0;
    while i < lines.len()
        invariant
            i <= lines.len(),
            all == words_of(lines@),
            table_view(rows@) == content_of(all, i as int),
            forall|r: int| 0 <= r < rows@.len() ==> (#[trigger] rows@[r])@.len() > 0,
        decreases lines.len() - i,
    {
        let words = split(lines[i].as_slice(), Cut::Words);
        proof {
            assert(all[i as int] == lines@[i as int]@);
        }
        let skip = words.len() == 0 || (words[0].len() > 0 && words[0][0] == HASH);
        proof {
            if words@.len() > 0 {
                assert(words_of(words@)[0] == words@[0]@);
            }
        }
        if !skip {
            let ghost done = table_view(rows@);
            let ghost row = words_of(words@);
            rows.push(words);
            proof {
                assert(table_view(rows@) =~= done.push(row));
            }
        }
        i += 1;
    }
    rows
}

/// Whether `s` is made of spaces only.
pub open spec fn all_spaces(s: Seq<u8>) -> bool {
    forall|i: int| 0 <= i < s.len() ==> #[trigger] s[i] == 32
}

/// The first `k` words of a line, each after its gap and followed by one
/// space.
pub open spec fn spaced(words: Seq<Seq<u8>>, gaps: Seq<Seq<u8>>, k: int) -> Seq<u8>
    decreases k,
{
    if k <= 0 {
        Seq::<u8>::empty()
    } else {
        spaced(words, gaps, k - 1) + gaps[k - 1] + words[k - 1] + seq![32u8]
    }
}

/// The first `k` lines of a text, each followed by a line feed.
pub open spec fn lined(lines: Seq<Seq<u8>>, k: int) -> Seq<u8>
    decreases k,
{
    if k <= 0 {
        Seq::<u8>::empty()
    } else {
        lined(lines, k - 1) + lines[k - 1] + seq![10u8]
    }
}

/// The text of a table of words: every row a line, every word after its
/// gap.
pub open spec fn table_text(words: Seq<Seq<Seq<u8>>>, gaps: Seq<Seq<Seq<u8>>>) -> Seq<u8> {
    lined(
        Seq::new(words.len(), |r: int| spaced(words[r], gaps[r], words[r].len() as int)),
        words.len() as int,
    )
}

/// Whether a table of words and gaps can be written and read back: every
/// row has a word, every word is a word of its own, no row is a comment,
/// and every gap is made of spaces.
pub open spec fn writable(words: Seq<Seq<Seq<u8>>>, gaps: Seq<Seq<Seq<u8>>>) -> bool {
    &&& gaps.len() == words.len()
    &&& forall|r: int|
        0 <= r < words.len() ==> (#[trigger] words[r]).len() > 0 && gaps[r].len() == words[r].len()
            && words[r][0][0] != 35
    &&& forall|r: int, c: int|
        0 <= r < words.len() && 0 <= c < words[r].len() ==> is_piece(
            #[trigger] words[r][c],
            Cut::Words,
        ) && all_spaces(gaps[r][c])
}

/// The words of a spaced line are its words; the line holds no line feed
/// and ends with a blank.
pub proof fn lemma_spaced(words: Seq<Seq<u8>>, gaps: Seq<Seq<u8>>, k: int)
    requires
        0 <= k <= words.len(),
        gaps.len() == words.len(),
        forall|c: int|
            0 <= c < words.len() ==> is_piece(#[trigger] words[c], Cut::Words) && all_spaces(
                gaps[c],
            ),
    ensures
        pieces(spaced(words, gaps, k), Cut::Words) == words.subrange(0, k),
        closed(spaced(words, gaps, k), Cut::Words),
        forall|i: int|
            0 <= i < spaced(words, gaps, k).len() ==> (#[trigger] spaced(words, gaps, k)[i]) != 10,
        k > 0 ==> spaced(words, gaps, k).len() > 0,
    decreases k,
{
    if k > 0 {
        lemma_spaced(words, gaps, k - 1);
        let before = spaced(words, gaps, k - 1);
        let gap = gaps[k - 1];
        let word = words[k - 1];
        assert(all_cuts(gap, Cut::Words)) by {
            assert forall|i: int| 0 <= i < gap.len() implies cuts(Cut::Words, #[trigger] gap[i]) by {
                assert(gap[i] == 32);
            }
        }
        lemma_pieces_cuts(before, gap, Cut::Words);
        lemma_pieces_word(before + gap, word, Cut::Words);
        lemma_pieces_cut(before + gap + word, 32u8, Cut::Words);
        let whole = spaced(words, gaps, k);
        assert(whole =~= (before + gap + word).push(32u8));
        assert(words.subrange(0, k) =~= words.subrange(0, k - 1).push(word));
        assert forall|i: int| 0 <= i < whole.len() implies (#[trigger] whole[i]) != 10 by {
            if i < before.len() {
                assert(whole[i] == before[i]);
            } else if i < before.len() + gap.len() {
                assert(whole[i] == gap[i - before.len()]);
            } else if i < before.len() + gap.len() + word.len() {
                assert(whole[i] == word[i - before.len() - gap.len()]);
                assert(!cuts(Cut::Words, word[i - before.len() - gap.len()]));
            }
        }
    } else {
        assert(words.subrange(0, k) =~= Seq::<Seq<u8>>::empty());
    }
}

/// The lines of a lined text are its lines.
pub proof fn lemma_lined(lines: Seq<Seq<u8>>, k: int)
    requires
        0 <= k <= lines.len(),
        forall|r: int| 0 <= r < lines.len() ==> is_piece(#[trigger] lines[r], Cut::Lines),
    ensures
        pieces(lined(lines, k), Cut::Lines) == lines.subrange(0, k),
        closed(lined(lines, k), Cut::Lines),
    decreases k,
{
    if k > 0 {
        lemma_lined(lines, k - 1);
        let before = lined(lines, k - 1);
        lemma_pieces_word(before, lines[k - 1], Cut::Lines);
        lemma_pieces_cut(before + lines[k - 1], 10u8, Cut::Lines);
        assert(lined(lines, k) =~= (before + lines[k - 1]).push(10u8));
        assert(lines.subrange(0, k) =~= lines.subrange(0, k - 1).push(lines[k - 1]));
    } else {
        assert(lines.subrange(0, k) =~= Seq::<Seq<u8>>::empty());
    }
}

/// The content of the first `k` lines of the text of a table: its first
/// `k` rows.
proof fn lemma_table_content(
    words: Seq<Seq<Seq<u8>>>,
    gaps: Seq<Seq<Seq<u8>>>,
    lines: Seq<Seq<u8>>,
    k: int,
)
    requires
        0 <= k <= words.len(),
        writable(words, gaps),
        lines == Seq::new(words.len(), |r: int| spaced(words[r], gaps[r], words[r].len() as int)),
    ensures
        content_of(lines, k) == words.subrange(0, k),
    decreases k,
{
    if k > 0 {
        lemma_table_content(words, gaps, lines, k - 1);
        let row = words[k - 1];
        assert forall|c: int| 0 <= c < row.len() implies is_piece(#[trigger] row[c], Cut::Words)
            && all_spaces(gaps[k - 1][c]) by {
            assert(is_piece(words[k - 1][c], Cut::Words));
        }
        lemma_spaced(row, gaps[k - 1], row.len() as int);
        assert(row.subrange(0, row.len() as int) =~= row);
        assert(pieces(lines[k - 1], Cut::Words) == row);
        assert(!is_comment(row));
        assert(words.subrange(0, k) =~= words.subrange(0, k - 1).push(row));
    } else {
        assert(words.subrange(0, k) =~= Seq::<Seq<Seq<u8>>>::empty());
    }
}

/// Writing a table of words and reading the text gives the table back,
/// whatever the gaps.
pub proof fn lemma_table_round_trip(words: Seq<Seq<Seq<u8>>>, gaps: Seq<Seq<Seq<u8>>>)
    requires
        writable(words, gaps),
    ensures
        table_of(table_text(words, gaps)) == words,
{
    let lines = Seq::new(words.len(), |r: int| spaced(words[r], gaps[r], words[r].len() as int));
    assert forall|r: int| 0 <= r < lines.len() implies is_piece(#[trigger] lines[r], Cut::Lines) by {
        let row = words[r];
        assert forall|c: int| 0 <= c < row.len() implies is_piece(#[trigger] row[c], Cut::Words)
            && all_spaces(gaps[r][c]) by {
            assert(is_piece(words[r][c], Cut::Words));
        }
        lemma_spaced(row, gaps[r], row.len() as int);
    }
    lemma_lined(lines, lines.len() as int);
    assert(lines.subrange(0, lines.len() as int) =~= lines);
    lemma_table_content(words, gaps, lines, words.len() as int);
    assert(words.subrange(0, words.len() as int) =~= words);
}

/// `count` spaces.
pub open spec fn spaces(count: nat) -> Seq<u8> {
    Seq::new(count, |i: int| 32u8)
}

/// The gaps that a table of space counts stands for.
pub open spec fn gaps_view(counts: Seq<Vec<usize>>) -> Seq<Seq<Seq<u8>>> {
    Seq::new(
        counts.len(),
        |r: int| Seq::new(counts[r]@.len(), |c: int| spaces(counts[r]@[c] as nat)),
    )
}

/// Writes a table of words as text: every row becomes a line, and every
/// word is written after as many spaces as `gaps` says and is followed by
/// one space more.
pub fn write_table(words: &Vec<Vec<Vec<u8>>>, gaps: &Vec<Vec<usize>>) -> (text: Vec<u8>)
    requires
        gaps@.len() == words@.len(),
        forall|r: int| 0 <= r < words@.len() ==> (#[trigger] gaps@[r])@.len() == words@[r]@.len(),
    ensures
        text@ == table_text(table_view(words@), gaps_view(gaps@)),
{
    let ghost table = table_view(words@);
    let ghost between = gaps_view(gaps@);
    let ghost lines = Seq::new(
        table.len(),
        |r: int| spaced(table[r], between[r], table[r].len() as int),
    );
    let mut text: Vec<u8> = Vec::new();
    let mut r: usize = 0;
    while r < words.len()
        invariant
            r <= words.len(),
            table == table_view(words@),
            between == gaps_view(gaps@),
            gaps@.len() == words@.len(),
            forall|a: int|
                0 <= a < words@.len() ==> (#[trigger] gaps@[a])@.len() == words@[a]@.len(),
            lines == Seq::new(
                table.len(),
                |a: int| spaced(table[a], between[a], table[a].len() as int),
            ),
            text@ == lined(lines, r as int),
        decreases words.len() - r,
    {
        let ghost before = text@;
        let mut c: usize = 0;
        while c < words[r].len()
            invariant
                c <= words@[r as int]@.len(),
                r < words@.len(),
                table == table_view(words@),
                between == gaps_view(gaps@),
                gaps@.len() == words@.len(),
                gaps@[r as int]@.len() == words@[r as int]@.len(),
                text@ == before + spaced(table[r as int], between[r as int], c as int),
            decreases words@[r as int]@.len() - c,
        {
            let ghost so_far = text@;
            let count = gaps[r][c];
            proof {
                assert(so_far + spaces(0) =~= so_far);
            }
            let mut i: usize = 0;
            while i < count
                invariant
                    i <= count,
                    text@ == so_far + spaces(i as nat),
                decreases count - i,
            {
                text.push(SPACE);
                proof {
                    assert(text@ =~= so_far + spaces((i + 1) as nat));
                }
                i += 1;
            }
            let ghost gapped = text@;
            let word = &words[r][c];
            let mut i: usize = 0;
            while i < word.len()
                invariant
                    i <= word.len(),
                    text@ == gapped + word@.subrange(0, i as int),
                decreases word.len() - i,
            {
                text.push(word[i]);
                proof {
                    assert(text@ =~= gapped + word@.subrange(0, i as int + 1));
                }
                i += 1;
            }
            text.push(SPACE);
            proof {
                assert(word@.subrange(0, word@.len() as int) =~= word@);
                assert(table[r as int][c as int] == word@);
                assert(between[r as int][c as int] == spaces(count as nat));
                assert(text@ =~= before + spaced(table[r as int], between[r as int], c as int + 1));
            }
            c += 1;
        }
        text.push(LINE_FEED);
        proof {
            assert(table[r as int].len() == words@[r as int]@.len());
            assert(lines[r as int] == spaced(
                table[r as int],
                between[r as int],
                table[r as int].len() as int,
            ));
            assert(text@ =~= lined(lines, r as int + 1));
        }
        r += 1;
    }
    text
}

/// Whether `b` is a decimal digit.
pub open spec fn is_digit(b: u8) -> bool {
    48 <= b <= 57
}

/// Whether `s` is made of decimal digits only.
pub open spec fn all_digits(s: Seq<u8>) -> bool {
    forall|i: int| 0 <= i < s.len() ==> is_digit(#[trigger] s[i])
}

/// The number a sequence of decimal digits stands for.
pub open spec fn number_of(s: Seq<u8>) -> nat
    decreases s.len(),
{
    if s.len() == 0 {
        0
    } else {
        (number_of(s.drop_last()) * 10 + (s.last() - 48)) as nat
    }
}

/// The decimal digits of a number, without leading zeros.
pub open spec fn digits_of(n: nat) -> Seq<u8>
    decreases n,
{
    if n < 10 {
        seq![(48 + n) as u8]
    } else {
        digits_of(n / 10).push((48 + n % 10) as u8)
    }
}

/// The number a word stands for, or `None` where the word is no decimal
/// number or stands for a number too large for a machine word.
pub open spec fn number_in(word: Seq<u8>) -> Option<usize> {
    if word.len() > 0 && all_digits(word) && number_of(word) <= usize::MAX {
        Some(number_of(word) as usize)
    } else {
        None
    }
}

/// The digits of a number are digits, there is at least one of them, and
/// they stand for the number.
pub proof fn lemma_digits(n: nat)
    ensures
        digits_of(n).len() > 0,
        all_digits(digits_of(n)),
        number_of(digits_of(n)) == n,
        is_piece(digits_of(n), Cut::Words),
        is_piece(digits_of(n), Cut::Lines),
        digits_of(n)[0] != 35,
    decreases n,
{
    if n < 10 {
        let d = seq![(48 + n) as u8];
        assert(d.drop_last() =~= Seq::<u8>::empty());
        assert(number_of(d.drop_last()) == 0);
        assert(d.last() == (48 + n) as u8);
        assert(number_of(d) == n);
    } else {
        lemma_digits(n / 10);
        let front = digits_of(n / 10);
        let d = front.push((48 + n % 10) as u8);
        assert(d.drop_last() =~= front);
        assert(d[0] == front[0]);
    }
}

/// A number does not shrink when a digit is added.
pub proof fn lemma_number_grows(s: Seq<u8>, k: int)
    requires
        all_digits(s),
        0 <= k <= s.len(),
    ensures
        number_of(s.subrange(0, k)) <= number_of(s),
    decreases s.len() - k,
{
    if k < s.len() {
        lemma_number_grows(s, k + 1);
        let longer = s.subrange(0, k + 1);
        assert(longer.drop_last() =~= s.subrange(0, k));
        assert(is_digit(s[k]));
    } else {
        assert(s.subrange(0, k) =~= s);
    }
}

/// Reads a decimal number.
pub fn parse_number(word: &Vec<u8>) -> (r: Option<usize>)
    ensures
        r == number_in(word@),
{
    if word.len() == 0 {
        return None;
    }
    let mut value: usize = 0;
    let mut i: usize = 0;
    while i < word.len()
        invariant
            i <= word.len(),
            all_digits(word@.subrange(0, i as int)),
            value == number_of(word@.subrange(0, i as int)),
        decreases word.len() - i,
    {
        let b = word[i];
        let ghost prefix = word@.subrange(0, i as int);
        let ghost next = word@.subrange(0, i as int + 1);
        proof {
            assert(next.drop_last() =~= prefix);
            assert(next.last() == b);
        }
        if b < 48 || b > 57 {
            proof {
                assert(!is_digit(word@[i as int]));
            }
            return None;
        }
        let digit: usize = (b - 48) as usize;
        if value > (usize::MAX - digit) / 10 {
            proof {
                assert(number_of(next) > usize::MAX);
                if all_digits(word@) {
                    lemma_number_grows(word@, i as int + 1);
                }
            }
            return None;
        }
        value = value * 10 + digit;
        proof {
            assert forall|k: int| 0 <= k < next.len() implies is_digit(#[trigger] next[k]) by {
                if k < i {
                    assert(prefix[k] == next[k]);
                }
            }
        }
        i += 1;
    }
    proof {
        assert(word@.subrange(0, word@.len() as int) =~= word@);
    }
    Some(value)
}

/// Appends the decimal digits of `n` to `out`.
pub fn push_number(n: usize, out: &mut Vec<u8>)
    ensures
        final(out)@ == old(out)@ + digits_of(n as nat),
    decreases n,
{
    if n >= 10 {
        push_number(n / 10, out);
    }
    let ghost before = out@;
    out.push(48 + (n % 10) as u8);
    proof {
        if n >= 10 {
            assert(out@ =~= old(out)@ + digits_of(n as nat));
        } else {
            assert(out@ =~= old(out)@ + digits_of(n as nat));
        }
    }
}

/// The number of decimal digits of `n`.
pub fn digit_count(n: usize) -> (count: usize)
    ensures
        count == digits_of(n as nat).len(),
        1 <= count <= 20,
{
    let mut count: usize = 1;
    let mut rest: usize = n;
    proof {
        assert(pow10(0) == 1);
        assert(rest * 1 == rest);
    }
    while rest >= 10
        invariant
            1 <= count <= 20,
            digits_of(n as nat).len() == digits_of(rest as nat).len() + count - 1,
            rest * pow10((count - 1) as nat) <= n,
        decreases rest,
    {
        proof {
            lemma_pow10_step(rest as nat, (count - 1) as nat, n as nat);
        }
        rest = rest / 10;
        count += 1;
    }
    count
}

/// Ten to the power of `k`.
pub open spec fn pow10(k: nat) -> nat
    decreases k,
{
    if k == 0 {
        1
    } else {
        10 * pow10((k - 1) as nat)
    }
}

/// A number with more than twenty digits does not fit a machine word.
proof fn lemma_pow10_step(rest: nat, k: nat, n: nat)
    requires
        rest >= 10,
        rest * pow10(k) <= n,
        n <= usize::MAX,
    ensures
        (rest / 10) * pow10(k + 1) <= n,
        k + 1 < 20,
{
    assert((rest / 10) * (10 * pow10(k)) <= rest * pow10(k)) by (nonlinear_arith)
        requires
            rest >= 10,
            pow10(k) >= 0,
    ;
    if k + 1 >= 20 {
        lemma_pow10_large(k);
        assert(rest * pow10(k) >= 10 * pow10(k)) by (nonlinear_arith)
            requires
                rest >= 10,
                pow10(k) >= 0,
        ;
    }
}

/// Ten to the nineteenth and beyond is beyond a machine word of 64 bits.
proof fn lemma_pow10_large(k: nat)
    requires
        k >= 19,
    ensures
        10 * pow10(k) > usize::MAX,
    decreases k,
{
    if k == 19 {
        reveal_with_fuel(pow10, 21);
        assert(pow10(19) == 10000000000000000000);
    } else {
        lemma_pow10_large((k - 1) as nat);
    }
}

} // verus!
