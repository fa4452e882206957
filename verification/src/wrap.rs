//! Greedy word wrap over byte strings: the body of a message is split
//! into words at spaces, and words are packed onto lines of a given
//! width, never splitting a word when a break point exists and
//! hard-breaking a word only when it is longer than a whole line.

use vstd::prelude::*;
use vstd::slice::{slice_subrange, slice_to_vec};

verus! {

/// The byte at which lines may break: a space.
pub open spec fn is_break(b: u8) -> bool {
    b == 32
}

/// The longest prefix of `s` that contains no break byte.
pub open spec fn word_prefix(s: Seq<u8>) -> Seq<u8>
    decreases s.len(),
{
    if s.len() == 0 || is_break(s[0]) {
        Seq::empty()
    } else {
        seq![s[0]] + word_prefix(s.drop_first())
    }
}

/// `s` without its leading run of non-break bytes.
pub open spec fn skip_word(s: Seq<u8>) -> Seq<u8>
    decreases s.len(),
{
    if s.len() == 0 || is_break(s[0]) {
        s
    } else {
        skip_word(s.drop_first())
    }
}

/// Skipping a leading word never lengthens the text, and strictly
/// shortens it when a word is there to skip.
pub proof fn lemma_skip_word_len(s: Seq<u8>)
    ensures
        skip_word(s).len() <= s.len(),
        s.len() > 0 && !is_break(s[0]) ==> skip_word(s).len() < s.len(),
    decreases s.len(),
{
    if s.len() > 0 && !is_break(s[0]) {
        lemma_skip_word_len(s.drop_first());
    }
}

/// The words of `s`: its maximal runs of non-break bytes, in order.
/// Break bytes themselves are not kept.
pub open spec fn words(s: Seq<u8>) -> Seq<Seq<u8>>
    decreases s.len(),
{
    if s.len() == 0 {
        Seq::empty()
    } else if is_break(s[0]) {
        words(s.drop_first())
    } else {
        proof {
            lemma_skip_word_len(s);
        }
        seq![word_prefix(s)] + words(skip_word(s))
    }
}

/// The views of a list of byte vectors.
pub open spec fn views(ws: Seq<Vec<u8>>) -> Seq<Seq<u8>> {
    ws.map_values(|v: Vec<u8>| v@)
}

/// The total number of bytes in a list of words.
pub open spec fn sum_len(ws: Seq<Seq<u8>>) -> nat
    decreases ws.len(),
{
    if ws.len() == 0 {
        0
    } else {
        ws[0].len() + sum_len(ws.drop_first())
    }
}

/// Splitting a word list splits its total byte count.
pub proof fn lemma_sum_len_split(ws: Seq<Seq<u8>>, k: int)
    requires
        0 <= k <= ws.len(),
    ensures
        sum_len(ws) == sum_len(ws.take(k)) + sum_len(ws.skip(k)),
    decreases k,
{
    if k == 0 {
        assert(ws.take(0) =~= Seq::<Seq<u8>>::empty());
        assert(ws.skip(0) =~= ws);
    } else {
        lemma_sum_len_split(ws.drop_first(), k - 1);
        assert(ws.take(k).drop_first() =~= ws.drop_first().take(k - 1));
        assert(ws.skip(k) =~= ws.drop_first().skip(k - 1));
        assert(sum_len(ws.take(k)) == ws[0].len() + sum_len(ws.take(k).drop_first()));
    }
}

/// The words of `ws` joined by single spaces.
pub open spec fn join(ws: Seq<Seq<u8>>) -> Seq<u8>
    decreases ws.len(),
{
    if ws.len() == 0 {
        Seq::empty()
    } else if ws.len() == 1 {
        ws[0]
    } else {
        ws[0] + seq![32u8] + join(ws.drop_first())
    }
}

proof fn lemma_join_push(ws: Seq<Seq<u8>>, w: Seq<u8>)
    requires
        ws.len() >= 1,
    ensures
        join(ws.push(w)) == join(ws) + seq![32u8] + w,
    decreases ws.len(),
{
    if ws.len() == 1 {
        assert(ws.push(w).drop_first() =~= seq![w]);
        assert(join(seq![w]) == w);
        assert(join(ws.push(w)) == ws[0] + seq![32u8] + w);
        assert(join(ws) == ws[0]);
    } else {
        lemma_join_push(ws.drop_first(), w);
        assert(ws.push(w).drop_first() =~= ws.drop_first().push(w));
        assert(join(ws) + seq![32u8] + w =~= ws[0] + seq![32u8] + (join(ws.drop_first()) + seq![
            32u8,
        ] + w));
    }
}

/// How far the first line reaches: starting at word `i` with `used`
/// columns already filled, the index just past the last word that
/// still fits when joined by single spaces.
pub open spec fn take_from(ws: Seq<Seq<u8>>, width: int, used: int, i: int) -> int
    decreases ws.len() - i,
    when 0 <= i <= ws.len()
{
    if i >= ws.len() {
        i
    } else if used + 1 + ws[i].len() <= width {
        take_from(ws, width, used + 1 + ws[i].len(), i + 1)
    } else {
        i
    }
}

/// The first line never reaches past the end of the word list, nor
/// behind where it started.
pub proof fn lemma_take_from_range(ws: Seq<Seq<u8>>, width: int, used: int, i: int)
    requires
        0 <= i <= ws.len(),
    ensures
        i <= take_from(ws, width, used, i) <= ws.len(),
    decreases ws.len() - i,
{
    if i < ws.len() && used + 1 + ws[i].len() <= width {
        lemma_take_from_range(ws, width, used + 1 + ws[i].len(), i + 1);
    }
}

/// Greedy fill: pack the words of `ws` onto lines at most `width`
/// columns wide. A word that fits shares its line with as many
/// following words as still fit, joined by single spaces; a word
/// longer than `width` is hard-broken, its head filling one whole
/// line and its remainder flowing on as if it were the next word.
pub open spec fn fill(ws: Seq<Seq<u8>>, width: int) -> Seq<Seq<u8>>
    decreases sum_len(ws) + ws.len(),
    when width >= 1
{
    if ws.len() == 0 {
        Seq::empty()
    } else if ws[0].len() > width {
        proof {
            let rest = seq![ws[0].skip(width)] + ws.drop_first();
            assert(rest.drop_first() =~= ws.drop_first());
            assert(sum_len(rest) == ws[0].skip(width).len() + sum_len(rest.drop_first()));
            assert(sum_len(ws) == ws[0].len() + sum_len(ws.drop_first()));
        }
        seq![ws[0].take(width)] + fill(seq![ws[0].skip(width)] + ws.drop_first(), width)
    } else {
        let k = take_from(ws, width, ws[0].len() as int, 1);
        proof {
            lemma_take_from_range(ws, width, ws[0].len() as int, 1);
            lemma_sum_len_split(ws, k);
        }
        seq![join(ws.take(k))] + fill(ws.skip(k), width)
    }
}

/// The wrap width actually used: at least one column, whatever the
/// caller asked for.
pub open spec fn wrap_width(width: int) -> int {
    if width < 1 {
        1
    } else {
        width
    }
}

/// The wrapped form of a message body at a given width.
pub open spec fn wrap_spec(body: Seq<u8>, width: int) -> Seq<Seq<u8>> {
    fill(words(body), wrap_width(width))
}

/// A well-formed word: nonempty and free of break bytes.
pub open spec fn is_word(w: Seq<u8>) -> bool {
    w.len() >= 1 && forall|j: int| 0 <= j < w.len() ==> !is_break(#[trigger] w[j])
}

/// Every entry of the list is a well-formed word.
pub open spec fn all_words(ws: Seq<Seq<u8>>) -> bool {
    forall|i: int| 0 <= i < ws.len() ==> is_word(#[trigger] ws[i])
}

proof fn lemma_word_prefix_wf(s: Seq<u8>)
    requires
        s.len() > 0,
        !is_break(s[0]),
    ensures
        is_word(word_prefix(s)),
    decreases s.len(),
{
    let rest = s.drop_first();
    if rest.len() > 0 && !is_break(rest[0]) {
        lemma_word_prefix_wf(rest);
        assert forall|j: int| 0 <= j < word_prefix(s).len() implies !is_break(
            #[trigger] word_prefix(s)[j],
        ) by {
            if j > 0 {
                assert(word_prefix(s)[j] == word_prefix(rest)[j - 1]);
            }
        }
    } else {
        assert(word_prefix(rest) =~= Seq::<u8>::empty());
        assert(word_prefix(s) == seq![s[0]] + word_prefix(rest));
        assert(word_prefix(s) =~= seq![s[0]]);
    }
}

/// Every word that splitting produces is nonempty and free of break
/// bytes.
pub proof fn lemma_words_wf(s: Seq<u8>)
    ensures
        all_words(words(s)),
    decreases s.len(),
{
    if s.len() == 0 {
    } else if is_break(s[0]) {
        lemma_words_wf(s.drop_first());
    } else {
        lemma_skip_word_len(s);
        lemma_words_wf(skip_word(s));
        lemma_word_prefix_wf(s);
        assert forall|i: int| 0 <= i < words(s).len() implies is_word(#[trigger] words(s)[i]) by {
            if i > 0 {
                assert(words(s)[i] == words(skip_word(s))[i - 1]);
            }
        }
    }
}

proof fn lemma_join_len(ws: Seq<Seq<u8>>)
    requires
        ws.len() >= 1,
    ensures
        join(ws).len() == sum_len(ws) + ws.len() - 1,
    decreases ws.len(),
{
    if ws.len() == 1 {
        assert(sum_len(ws) == ws[0].len() + sum_len(ws.drop_first()));
        assert(ws.drop_first().len() == 0);
    } else {
        lemma_join_len(ws.drop_first());
    }
}

proof fn lemma_join_prefix_le(ws: Seq<Seq<u8>>, j: int)
    requires
        1 <= j <= ws.len(),
    ensures
        join(ws.take(j)).len() <= join(ws).len(),
{
    lemma_join_len(ws);
    lemma_join_len(ws.take(j));
    lemma_sum_len_split(ws, j);
}

proof fn lemma_words_single(w: Seq<u8>)
    requires
        is_word(w),
    ensures
        words(w) == seq![w],
{
    assert(!is_break(w[0]));
    lemma_scan(w, w.len() as int);
    assert(w.take(w.len() as int) =~= w);
    assert(w.skip(w.len() as int) =~= Seq::<u8>::empty());
    assert(words(Seq::<u8>::empty()) == Seq::<Seq<u8>>::empty());
    assert(words(w) == seq![word_prefix(w)] + words(skip_word(w)));
    assert(words(w) =~= seq![w]);
}

/// Splitting the single-space join of well-formed words gives the
/// words back unchanged.
pub proof fn lemma_words_join_inverse(ws: Seq<Seq<u8>>)
    requires
        all_words(ws),
    ensures
        words(join(ws)) == ws,
    decreases ws.len(),
{
    if ws.len() == 0 {
    } else if ws.len() == 1 {
        lemma_words_single(ws[0]);
        assert(words(join(ws)) =~= ws);
    } else {
        let w0 = ws[0];
        let rest = ws.drop_first();
        let jr = join(rest);
        let full = join(ws);
        assert(full == w0 + seq![32u8] + jr);
        assert forall|k: int| 0 <= k < w0.len() implies !is_break(#[trigger] full[k]) by {
            assert(full[k] == w0[k]);
        }
        assert(full[w0.len() as int] == 32u8);
        lemma_scan(full, w0.len() as int);
        assert(word_prefix(full) == full.take(w0.len() as int));
        assert(full.take(w0.len() as int) =~= w0);
        assert(skip_word(full) == full.skip(w0.len() as int));
        assert(full.skip(w0.len() as int) =~= seq![32u8] + jr);
        assert(!is_break(full[0]));
        assert(words(full) == seq![word_prefix(full)] + words(skip_word(full)));
        assert((seq![32u8] + jr).drop_first() =~= jr);
        assert(words(seq![32u8] + jr) == words(jr));
        assert(all_words(rest)) by {
            assert forall|i: int| 0 <= i < rest.len() implies is_word(#[trigger] rest[i]) by {
                assert(rest[i] == ws[i + 1]);
            }
        }
        lemma_words_join_inverse(rest);
        assert(words(join(ws)) =~= ws);
    }
}

proof fn lemma_take_from_all(ws: Seq<Seq<u8>>, width: int, i: int)
    requires
        1 <= i <= ws.len(),
        join(ws).len() <= width,
    ensures
        take_from(ws, width, join(ws.take(i)).len() as int, i) == ws.len(),
    decreases ws.len() - i,
{
    let used = join(ws.take(i)).len() as int;
    if i == ws.len() {
        assert(ws.take(i) =~= ws);
    } else {
        lemma_join_push(ws.take(i), ws[i]);
        assert(ws.take(i).push(ws[i]) =~= ws.take(i + 1));
        assert(join(ws.take(i + 1)).len() == used + 1 + ws[i].len());
        lemma_join_prefix_le(ws, i + 1);
        assert(used + 1 + ws[i].len() <= width);
        lemma_take_from_all(ws, width, i + 1);
    }
}

proof fn lemma_take_from_fits(ws: Seq<Seq<u8>>, width: int, i: int)
    requires
        1 <= i <= ws.len(),
        join(ws.take(i)).len() <= width,
    ensures
        join(ws.take(take_from(ws, width, join(ws.take(i)).len() as int, i))).len() <= width,
        i <= take_from(ws, width, join(ws.take(i)).len() as int, i) <= ws.len(),
    decreases ws.len() - i,
{
    let used = join(ws.take(i)).len() as int;
    if i < ws.len() && used + 1 + ws[i].len() <= width {
        lemma_join_push(ws.take(i), ws[i]);
        assert(ws.take(i).push(ws[i]) =~= ws.take(i + 1));
        assert(join(ws.take(i + 1)).len() == used + 1 + ws[i].len());
        lemma_take_from_fits(ws, width, i + 1);
    }
}

/// A list of well-formed words whose join fits within the width
/// fills exactly one line: the join itself.
pub proof fn lemma_fill_single(ws: Seq<Seq<u8>>, width: int)
    requires
        width >= 1,
        all_words(ws),
        ws.len() >= 1,
        join(ws).len() <= width,
    ensures
        fill(ws, width) == seq![join(ws)],
{
    lemma_join_len(ws);
    assert(sum_len(ws) == ws[0].len() + sum_len(ws.drop_first()));
    assert(ws[0].len() <= join(ws).len());
    assert(ws.take(1) =~= seq![ws[0]]);
    assert(join(seq![ws[0]]) == ws[0]);
    lemma_take_from_all(ws, width, 1);
    let k = take_from(ws, width, ws[0].len() as int, 1);
    assert(k == ws.len());
    assert(ws.take(k) =~= ws);
    assert(ws.skip(k) =~= Seq::<Seq<u8>>::empty());
    assert(fill(Seq::<Seq<u8>>::empty(), width) == Seq::<Seq<u8>>::empty());
    assert(fill(ws, width) =~= seq![join(ws)]);
}

/// A line is in canonical wrapped form: nonempty, within the width,
/// and exactly the join of its own words.
pub open spec fn line_wf(line: Seq<u8>, width: int) -> bool {
    1 <= line.len() <= width && join(words(line)) == line
}

/// Every line that the greedy fill of well-formed words produces is
/// in canonical wrapped form for the same width.
pub proof fn lemma_fill_lines_wf(ws: Seq<Seq<u8>>, width: int)
    requires
        width >= 1,
        all_words(ws),
    ensures
        forall|i: int|
            0 <= i < fill(ws, width).len() ==> line_wf(#[trigger] fill(ws, width)[i], width),
    decreases sum_len(ws) + ws.len(),
{
    if ws.len() == 0 {
    } else if ws[0].len() > width {
        let chunk = ws[0].take(width);
        let rem = ws[0].skip(width);
        let rest = seq![rem] + ws.drop_first();
        assert(is_word(ws[0]));
        assert(is_word(chunk)) by {
            assert forall|j: int| 0 <= j < chunk.len() implies !is_break(#[trigger] chunk[j]) by {
                assert(chunk[j] == ws[0][j]);
            }
        }
        lemma_words_single(chunk);
        assert(join(seq![chunk]) == chunk);
        assert(line_wf(chunk, width));
        assert(all_words(rest)) by {
            assert forall|i: int| 0 <= i < rest.len() implies is_word(#[trigger] rest[i]) by {
                if i == 0 {
                    assert forall|j: int| 0 <= j < rem.len() implies !is_break(
                        #[trigger] rem[j],
                    ) by {
                        assert(rem[j] == ws[0][width + j]);
                    }
                } else {
                    assert(rest[i] == ws[i]);
                }
            }
        }
        assert(rest.drop_first() =~= ws.drop_first());
        assert(sum_len(rest) == rem.len() + sum_len(rest.drop_first()));
        assert(sum_len(ws) == ws[0].len() + sum_len(ws.drop_first()));
        lemma_fill_lines_wf(rest, width);
        assert(fill(ws, width) == seq![chunk] + fill(rest, width));
        assert forall|i: int| 0 <= i < fill(ws, width).len() implies line_wf(
            #[trigger] fill(ws, width)[i],
            width,
        ) by {
            if i > 0 {
                assert(fill(ws, width)[i] == fill(rest, width)[i - 1]);
            }
        }
    } else {
        let k = take_from(ws, width, ws[0].len() as int, 1);
        lemma_take_from_range(ws, width, ws[0].len() as int, 1);
        assert(ws.take(1) =~= seq![ws[0]]);
        assert(join(seq![ws[0]]) == ws[0]);
        lemma_take_from_fits(ws, width, 1);
        let line = join(ws.take(k));
        assert(line.len() <= width);
        assert(all_words(ws.take(k))) by {
            assert forall|i: int| 0 <= i < ws.take(k).len() implies is_word(
                #[trigger] ws.take(k)[i],
            ) by {
                assert(ws.take(k)[i] == ws[i]);
            }
        }
        lemma_join_len(ws.take(k));
        assert(sum_len(ws.take(k)) == ws.take(k)[0].len() + sum_len(ws.take(k).drop_first()));
        assert(line.len() >= 1);
        lemma_words_join_inverse(ws.take(k));
        assert(line_wf(line, width));
        assert(all_words(ws.skip(k))) by {
            assert forall|i: int| 0 <= i < ws.skip(k).len() implies is_word(
                #[trigger] ws.skip(k)[i],
            ) by {
                assert(ws.skip(k)[i] == ws[i + k]);
            }
        }
        lemma_sum_len_split(ws, k);
        lemma_fill_lines_wf(ws.skip(k), width);
        assert(fill(ws, width) == seq![line] + fill(ws.skip(k), width));
        assert forall|i: int| 0 <= i < fill(ws, width).len() implies line_wf(
            #[trigger] fill(ws, width)[i],
            width,
        ) by {
            if i > 0 {
                assert(fill(ws, width)[i] == fill(ws.skip(k), width)[i - 1]);
            }
        }
    }
}

/// Wrap idempotence: re-wrapping any line that wrapping produced, at
/// the same width, reproduces exactly that line, with no drift of
/// the line boundaries.
pub proof fn lemma_wrap_idempotent(body: Seq<u8>, width: int, i: int)
    requires
        0 <= i < wrap_spec(body, width).len(),
    ensures
        wrap_spec(wrap_spec(body, width)[i], width) == seq![wrap_spec(body, width)[i]],
{
    let w = wrap_width(width);
    lemma_words_wf(body);
    lemma_fill_lines_wf(words(body), w);
    let line = wrap_spec(body, width)[i];
    assert(line_wf(line, w));
    lemma_words_wf(line);
    if words(line).len() == 0 {
        assert(join(words(line)) =~= Seq::<u8>::empty());
        assert(false);
    }
    lemma_fill_single(words(line), w);
}

/// Whether a further word of length `wlen` still fits on a line that
/// already holds `line_len` columns, counting the single joining
/// space.
fn fits(line_len: usize, wlen: usize, width: usize) -> (r: bool)
    ensures
        r == (line_len + 1 + wlen <= width),
{
    wlen < width && line_len <= width - wlen - 1
}

/// Splits a message body into its words, dropping the spaces.
pub fn split_words(body: &Vec<u8>) -> (out: Vec<Vec<u8>>)
    ensures
        views(out@) == words(body@),
{
    let mut out: Vec<Vec<u8>> = Vec::new();
    let mut i: usize = 0;
    proof {
        assert(views(out@) =~= Seq::<Seq<u8>>::empty());
        assert(body@.skip(0) =~= body@);
    }
    while i < body.len()
        invariant
            i <= body@.len(),
            words(body@) == views(out@) + words(body@.skip(i as int)),
        decreases body@.len() - i,
    {
        if body[i] == 32 {
            proof {
                assert(body@.skip(i as int).drop_first() =~= body@.skip(i + 1));
            }
            i = i + 1;
        } else {
            let start = i;
            i = i + 1;
            while i < body.len() && body[i] != 32
                invariant
                    start < i <= body@.len(),
                    forall|k: int| start <= k < i ==> !is_break(#[trigger] body@[k]),
                decreases body@.len() - i,
            {
                i = i + 1;
            }
            let w = slice_to_vec(slice_subrange(body.as_slice(), start, i));
            proof {
                let tail = body@.skip(start as int);
                let n = i - start;
                assert forall|k: int| 0 <= k < n implies !is_break(#[trigger] tail[k]) by {
                    assert(tail[k] == body@[start + k]);
                }
                if n < tail.len() {
                    assert(tail[n] == body@[i as int]);
                }
                lemma_scan(tail, n);
                assert(tail.take(n) =~= body@.subrange(start as int, i as int));
                assert(skip_word(tail) =~= body@.skip(i as int));
                assert(words(tail) == seq![word_prefix(tail)] + words(skip_word(tail)));
                assert(views(out@.push(w)) =~= views(out@).push(w@));
                assert(views(out@) + (seq![w@] + words(body@.skip(i as int))) =~= views(out@).push(
                    w@,
                ) + words(body@.skip(i as int)));
            }
            out.push(w);
        }
    }
    proof {
        assert(body@.skip(body@.len() as int) =~= Seq::<u8>::empty());
        assert(words(body@) =~= views(out@));
    }
    out
}

/// Lays out the word list formed by `first` followed by the words of
/// `ws` from index `i` on, one recursive step per produced line.
fn fill_rec(first: Vec<u8>, ws: &Vec<Vec<u8>>, i: usize, width: usize) -> (out: Vec<Vec<u8>>)
    requires
        width >= 1,
        i <= ws@.len(),
    ensures
        views(out@) == fill(seq![first@] + views(ws@).skip(i as int), width as int),
    decreases first@.len() + sum_len(views(ws@).skip(i as int)) + (ws@.len() - i),
{
    let ghost cur = seq![first@] + views(ws@).skip(i as int);
    if first.len() > width {
        let head = slice_to_vec(slice_subrange(first.as_slice(), 0, width));
        let rem = slice_to_vec(slice_subrange(first.as_slice(), width, first.len()));
        proof {
            assert(seq![rem@] + views(ws@).skip(i as int) =~= seq![cur[0].skip(width as int)]
                + cur.drop_first());
        }
        let mut rest = fill_rec(rem, ws, i, width);
        rest.insert(0, head);
        proof {
            assert(fill(cur, width as int) == seq![cur[0].take(width as int)] + fill(
                seq![cur[0].skip(width as int)] + cur.drop_first(),
                width as int,
            ));
            assert(head@ == cur[0].take(width as int));
            assert(views(rest@) =~= fill(cur, width as int));
        }
        rest
    } else {
        let ghost first_v = first@;
        let mut line = first;
        let mut j = i;
        proof {
            assert(cur.take(1) =~= seq![first_v]);
            assert(join(seq![first_v]) == first_v);
        }
        while j < ws.len()
            invariant
                width >= 1,
                i <= j <= ws@.len(),
                cur == seq![first_v] + views(ws@).skip(i as int),
                cur[0].len() <= width,
                line@ == join(cur.take(1 + j - i)),
                take_from(cur, width as int, line@.len() as int, 1 + j - i) == take_from(
                    cur,
                    width as int,
                    cur[0].len() as int,
                    1,
                ),
            ensures
                i <= j <= ws@.len(),
                line@ == join(cur.take(1 + j - i)),
                take_from(cur, width as int, cur[0].len() as int, 1) == 1 + j - i,
            decreases ws@.len() - j,
        {
            let ghost tw = 1 + j - i;
            proof {
                assert(cur[tw] == views(ws@).skip(i as int)[tw - 1]);
                assert(cur[tw] == ws@[j as int]@);
            }
            let wj = &ws[j];
            if !fits(line.len(), wj.len(), width) {
                proof {
                    assert(take_from(cur, width as int, line@.len() as int, tw) == tw);
                }
                break ;
            }
            let ghost line0 = line@;
            line.push(32);
            let mut t: usize = 0;
            while t < wj.len()
                invariant
                    t <= wj@.len(),
                    line@ == line0 + seq![32u8] + wj@.take(t as int),
                decreases wj@.len() - t,
            {
                let b = wj[t];
                proof {
                    assert(wj@.take(t + 1) =~= wj@.take(t as int).push(wj@[t as int]));
                    assert(line0 + seq![32u8] + wj@.take(t + 1) =~= (line0 + seq![32u8]
                        + wj@.take(t as int)).push(wj@[t as int]));
                }
                line.push(b);
                t = t + 1;
            }
            proof {
                assert(wj@.take(wj@.len() as int) =~= wj@);
                lemma_join_push(cur.take(tw), wj@);
                assert(cur.take(tw).push(cur[tw]) =~= cur.take(tw + 1));
                assert(line@ == join(cur.take(tw + 1)));
                assert(take_from(cur, width as int, line0.len() as int, tw) == take_from(
                    cur,
                    width as int,
                    line0.len() + 1 + wj@.len() as int,
                    tw + 1,
                ));
            }
            j = j + 1;
        }
        let ghost k = 1 + j - i;
        proof {
            assert(fill(cur, width as int) == seq![join(cur.take(k))] + fill(
                cur.skip(k),
                width as int,
            ));
        }
        if j < ws.len() {
            let nf = slice_to_vec(ws[j].as_slice());
            proof {
                let tail = views(ws@).skip(i as int);
                lemma_sum_len_split(tail, j - i);
                assert(tail.skip(j - i) =~= views(ws@).skip(j as int));
                assert(views(ws@).skip(j as int).drop_first() =~= views(ws@).skip(j + 1));
                assert(sum_len(views(ws@).skip(j as int)) == views(ws@).skip(j as int)[0].len()
                    + sum_len(views(ws@).skip(j + 1)));
                assert(views(ws@).skip(j as int)[0] == ws@[j as int]@);
                assert(cur.skip(k) =~= seq![nf@] + views(ws@).skip(j + 1));
            }
            let mut rest = fill_rec(nf, ws, j + 1, width);
            rest.insert(0, line);
            proof {
                assert(views(rest@) =~= fill(cur, width as int));
            }
            rest
        } else {
            let mut out: Vec<Vec<u8>> = Vec::new();
            out.push(line);
            proof {
                assert(cur.skip(k) =~= Seq::<Seq<u8>>::empty());
                assert(fill(Seq::<Seq<u8>>::empty(), width as int) == Seq::<Seq<u8>>::empty());
                assert(views(out@) =~= fill(cur, width as int));
            }
            out
        }
    }
}

/// Word-wraps a message body to lines at most `width` columns wide;
/// a width below one is clamped to one.
pub fn wrap_body(body: &Vec<u8>, width: usize) -> (out: Vec<Vec<u8>>)
    ensures
        views(out@) == wrap_spec(body@, width as int),
{
    let w: usize = if width < 1 {
        1
    } else {
        width
    };
    let ws = split_words(body);
    if ws.len() == 0 {
        let out: Vec<Vec<u8>> = Vec::new();
        proof {
            assert(views(ws@) =~= Seq::<Seq<u8>>::empty());
            assert(fill(words(body@), w as int) == Seq::<Seq<u8>>::empty());
            assert(views(out@) =~= Seq::<Seq<u8>>::empty());
        }
        out
    } else {
        let first = slice_to_vec(ws[0].as_slice());
        let out = fill_rec(first, &ws, 1, w);
        proof {
            assert(seq![first@] + views(ws@).skip(1) =~= views(ws@));
        }
        out
    }
}

proof fn lemma_scan(s: Seq<u8>, n: int)
    requires
        0 <= n <= s.len(),
        forall|k: int| 0 <= k < n ==> !is_break(#[trigger] s[k]),
        n == s.len() || is_break(s[n]),
    ensures
        word_prefix(s) == s.take(n),
        skip_word(s) == s.skip(n),
    decreases n,
{
    if n == 0 {
        assert(word_prefix(s) =~= s.take(0));
        assert(skip_word(s) =~= s.skip(0));
    } else {
        lemma_scan(s.drop_first(), n - 1);
        assert(seq![s[0]] + s.drop_first().take(n - 1) =~= s.take(n));
        assert(s.drop_first().skip(n - 1) =~= s.skip(n));
    }
}

} // verus!
