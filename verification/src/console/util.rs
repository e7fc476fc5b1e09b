use crate::engine::text::{blank, clone_texts, is_blank, trim_start, trim_start_of};
use unicode_segmentation::UnicodeSegmentation;
use vstd::prelude::*;

verus! {

/// The extended grapheme clusters of a text, in order, as
/// `UnicodeSegmentation::graphemes` yields them.
pub uninterp spec fn grapheme_clusters(s: Seq<char>) -> Seq<Seq<char>>;

/// The pieces into which the word boundaries of a text cut it, in order, as
/// `UnicodeSegmentation::split_word_bounds` yields them.
pub uninterp spec fn word_bounds(s: Seq<char>) -> Seq<Seq<char>>;

/// `UnicodeSegmentation::graphemes` with extended clusters, each cluster as a
/// string of its own.
#[verifier::external_body]
fn graphemes(s: &str) -> (clusters: Vec<String>)
    ensures
        clusters.deep_view() == grapheme_clusters(s@),
{
    s.graphemes(true).map(|cluster| cluster.to_string()).collect()
}

/// `UnicodeSegmentation::split_word_bounds`, each piece as a string of its
/// own.
#[verifier::external_body]
fn split_word_bounds(s: &str) -> (pieces: Vec<String>)
    ensures
        pieces.deep_view() == word_bounds(s@),
{
    s.split_word_bounds().map(|piece| piece.to_string()).collect()
}

/// The number of grapheme clusters of a text: what a reader counts as its
/// characters.
pub open spec fn width_of(s: Seq<char>) -> nat {
    grapheme_clusters(s).len()
}

/// The pieces of a title as words: a piece of white space goes in front of
/// the piece that follows it, unless that is white space too.
pub open spec fn merged_words(chunks: Seq<Seq<char>>) -> Seq<Seq<char>>
    decreases chunks.len(),
{
    if chunks.len() == 0 {
        Seq::empty()
    } else if chunks.len() >= 2 && blank(chunks[0]) && !blank(chunks[1]) {
        seq![chunks[0] + chunks[1]] + merged_words(chunks.skip(2))
    } else {
        seq![chunks[0]] + merged_words(chunks.skip(1))
    }
}

/// The width of the words from number `i` on.
pub open spec fn width_from(words: Seq<Seq<char>>, i: int) -> nat
    decreases words.len() - i,
{
    if i < 0 || i >= words.len() {
        0
    } else {
        width_of(words[i]) + width_from(words, i + 1)
    }
}

/// What is left of a word that gives way: the first grapheme cluster after
/// its leading white space, or nothing where there is none.
pub open spec fn initial_of(word: Seq<char>) -> Seq<char> {
    let clusters = grapheme_clusters(trim_start_of(word));
    if clusters.len() > 0 {
        clusters[0]
    } else {
        Seq::empty()
    }
}

/// The title made of the first `k` words, a word giving way to its initial
/// where what stands so far and all words from it on would not fit in
/// `target` grapheme clusters.
pub open spec fn compacted_upto(words: Seq<Seq<char>>, target: nat, k: nat) -> Seq<char>
    decreases k,
{
    if k == 0 || k > words.len() {
        Seq::empty()
    } else {
        let so_far = compacted_upto(words, target, (k - 1) as nat);
        if width_of(so_far) + width_from(words, k - 1) > target {
            so_far + initial_of(words[k - 1])
        } else {
            so_far + words[k - 1]
        }
    }
}

/// A title made to fit, as far as initials can make it, in `target`
/// grapheme clusters: from the left, words give way to their initials until
/// the rest fits.
pub open spec fn compact_title_of(title: Seq<char>, target: nat) -> Seq<char> {
    let words = merged_words(word_bounds(title));
    compacted_upto(words, target, words.len())
}

/// The number of grapheme clusters of a text.
pub fn grapheme_len(s: &str) -> (n: usize)
    ensures
        n == width_of(s@),
{
    graphemes(s).len()
}

/// Puts each piece of white space in front of the piece that follows it.
pub fn merge_words(chunks: &Vec<String>) -> (words: Vec<String>)
    ensures
        words.deep_view() == merged_words(chunks.deep_view()),
{
    let mut words: Vec<String> = Vec::new();
    let mut i: usize = 0;
    let ghost all = chunks.deep_view();
    assert(all.skip(0) =~= all);
    assert(words.deep_view() =~= Seq::<Seq<char>>::empty());
    while i < chunks.len()
        invariant
            i <= chunks.len(),
            all == chunks.deep_view(),
            merged_words(all) == words.deep_view() + merged_words(all.skip(i as int)),
        decreases chunks.len() - i,
    {
        let ghost rest = all.skip(i as int);
        let ghost before = words.deep_view();
        assert(rest[0] == chunks[i as int]@);
        if i + 1 < chunks.len() && is_blank(chunks[i].as_str()) && !is_blank(
            chunks[i + 1].as_str(),
        ) {
            assert(rest[1] == chunks[i + 1]@);
            let mut word = chunks[i].clone();
            word.append(chunks[i + 1].as_str());
            words.push(word);
            assert(words.deep_view() =~= before + seq![rest[0] + rest[1]]);
            assert(rest.skip(2) =~= all.skip(i + 2));
            i += 2;
        } else {
            if i + 1 < chunks.len() {
                assert(rest[1] == chunks[i + 1]@);
            }
            words.push(chunks[i].clone());
            assert(words.deep_view() =~= before + seq![rest[0]]);
            assert(rest.skip(1) =~= all.skip(i + 1));
            i += 1;
        }
    }
    assert(merged_words(all.skip(i as int)) =~= Seq::<Seq<char>>::empty());
    assert(words.deep_view() + Seq::<Seq<char>>::empty() =~= words.deep_view());
    words
}

/// The width of each word.
fn measure(words: &Vec<String>) -> (widths: Vec<usize>)
    ensures
        widths.len() == words.len(),
        forall|i: int| 0 <= i < words.len() ==> widths[i] == width_of(#[trigger] words[i]@),
{
    let mut widths: Vec<usize> = Vec::new();
    let mut i: usize = 0;
    while i < words.len()
        invariant
            i <= words.len(),
            widths.len() == i,
            forall|k: int| 0 <= k < i ==> widths[k] == width_of(#[trigger] words[k]@),
        decreases words.len() - i,
    {
        widths.push(grapheme_len(words[i].as_str()));
        i += 1;
    }
    widths
}

/// The first grapheme cluster of a word after its leading white space.
fn initial(word: &str) -> (first: String)
    ensures
        first@ == initial_of(word@),
{
    let clusters = graphemes(trim_start(word));
    if clusters.len() > 0 {
        assert(clusters.deep_view()[0] == clusters[0]@);
        clusters[0].clone()
    } else {
        String::new()
    }
}

/// Shortens a title made of words: from the left, a word gives way to its
/// initial where what stands so far and all words from it on would not fit
/// in `target_len` grapheme clusters.
pub fn compact_words(words: &Vec<String>, target_len: usize) -> (compacted: String)
    ensures
        compacted@ == compacted_upto(words.deep_view(), target_len as nat, words.len() as nat),
{
    let widths = measure(words);
    let ghost texts = words.deep_view();
    let n = words.len();
    // Calculate how many graphemes are downstream of any given word
    let mut downstream: Vec<u128> = Vec::new();
    let mut k: usize = 0;
    while k < n
        invariant
            k <= n,
            downstream.len() == k,
        decreases n - k,
    {
        downstream.push(0);
        k += 1;
    }
    let mut sum: u128 = 0;
    let mut j: usize = n;
    while j > 0
        invariant
            j <= n,
            n == words.len(),
            texts == words.deep_view(),
            widths.len() == n,
            downstream.len() == n,
            forall|i: int| 0 <= i < n ==> widths[i] == width_of(#[trigger] words[i]@),
            sum == width_from(texts, j as int),
            sum <= (n - j) * 0xffff_ffff_ffff_ffff,
            forall|i: int| j <= i < n ==> downstream[i] == width_from(texts, i),
            forall|i: int|
                j <= i < n ==> #[trigger] downstream[i] <= 0xffff_ffff_ffff_ffff
                    * 0xffff_ffff_ffff_ffff,
        decreases j,
    {
        j -= 1;
        assert(texts[j as int] == words[j as int]@);
        assert((n - j) * 0xffff_ffff_ffff_ffff == (n - (j + 1)) * 0xffff_ffff_ffff_ffff
            + 0xffff_ffff_ffff_ffff) by (nonlinear_arith);
        assert((n - j) * 0xffff_ffff_ffff_ffff <= 0xffff_ffff_ffff_ffff * 0xffff_ffff_ffff_ffff)
            by (nonlinear_arith)
            requires
                n - j <= 0xffff_ffff_ffff_ffff,
                0 <= n - j,
        ;
        sum = sum + widths[j] as u128;
        downstream.set(j, sum);
    }
    // A buffer for building up the compacted string
    let mut compacted = String::new();
    let mut i: usize = 0;
    while i < n
        invariant
            i <= n,
            n == words.len(),
            texts == words.deep_view(),
            downstream.len() == n,
            forall|k: int| 0 <= k < n ==> downstream[k] == width_from(texts, k),
            forall|k: int|
                0 <= k < n ==> #[trigger] downstream[k] <= 0xffff_ffff_ffff_ffff
                    * 0xffff_ffff_ffff_ffff,
            compacted@ == compacted_upto(texts, target_len as nat, i as nat),
        decreases n - i,
    {
        assert(texts[i as int] == words[i as int]@);
        let so_far = grapheme_len(compacted.as_str()) as u128;
        // If the number of graphemes downstream plus those already compacted
        // doesn't fit in target_len, compress the current word
        if so_far + downstream[i] > target_len as u128 {
            let first = initial(words[i].as_str());
            compacted.append(first.as_str());
        } else {
            // Otherwise, just push the current word (which includes a leading space)
            compacted.append(words[i].as_str());
        }
        i += 1;
    }
    compacted
}

/// Makes a title fit, as far as initials can make it, in `target_len`
/// grapheme clusters.
pub fn compact_title(title: &str, target_len: usize) -> (compacted: String)
    ensures
        compacted@ == compact_title_of(title@, target_len as nat),
{
    // Split into words prefixed with spaces
    let chunks = split_word_bounds(title);
    let words = merge_words(&chunks);
    compact_words(&words, target_len)
}

/// The width that the first `k` names of a path take besides the name
/// `name`: that of each name other than `name`, and of one separator with
/// each.
pub open spec fn width_beside(path: Seq<Seq<char>>, sep: Seq<char>, name: Seq<char>, k: nat) -> nat
    decreases k,
{
    if k == 0 || k > path.len() {
        0
    } else {
        width_beside(path, sep, name, (k - 1) as nat) + if path[k - 1] != name {
            width_of(path[k - 1]) + width_of(sep)
        } else {
            0
        }
    }
}

/// The room that is left for name number `i` of a path that is to fit in
/// `target` grapheme clusters.
pub open spec fn room_for(path: Seq<Seq<char>>, sep: Seq<char>, target: nat, i: int) -> nat {
    let taken = width_beside(path, sep, path[i], path.len());
    if taken >= target {
        0
    } else {
        (target - taken) as nat
    }
}

/// A path whose first `k` names were made to fit, one after the other, each
/// in the room that the others left at that moment.
pub open spec fn compacted_names(path: Seq<Seq<char>>, sep: Seq<char>, target: nat, k: nat) -> Seq<
    Seq<char>,
>
    decreases k,
{
    if k == 0 || k > path.len() {
        path
    } else {
        let before = compacted_names(path, sep, target, (k - 1) as nat);
        before.update(k - 1, compact_title_of(before[k - 1], room_for(before, sep, target, k - 1)))
    }
}

/// The first `k` texts of a list, with a separator between each two.
pub open spec fn joined_upto(parts: Seq<Seq<char>>, sep: Seq<char>, k: nat) -> Seq<char>
    decreases k,
{
    if k == 0 || k > parts.len() {
        Seq::empty()
    } else if k == 1 {
        parts[0]
    } else {
        joined_upto(parts, sep, (k - 1) as nat) + sep + parts[k - 1]
    }
}

/// A path made to fit, as far as initials can make it, in `target` grapheme
/// clusters, its names joined by the separator.
pub open spec fn compact_path_of(path: Seq<Seq<char>>, sep: Seq<char>, target: nat) -> Seq<char> {
    joined_upto(compacted_names(path, sep, target, path.len()), sep, path.len())
}

/// The names of a compacted path are as many as those of the path.
pub proof fn lemma_compacted_names_len(path: Seq<Seq<char>>, sep: Seq<char>, target: nat, k: nat)
    ensures
        compacted_names(path, sep, target, k).len() == path.len(),
    decreases k,
{
    if k > 0 && k <= path.len() {
        lemma_compacted_names_len(path, sep, target, (k - 1) as nat);
    }
}

/// The texts of a list with a separator between each two.
pub fn join(parts: &Vec<String>, sep: &str) -> (joined: String)
    ensures
        joined@ == joined_upto(parts.deep_view(), sep@, parts.len() as nat),
{
    let mut joined = String::new();
    let mut i: usize = 0;
    while i < parts.len()
        invariant
            i <= parts.len(),
            joined@ == joined_upto(parts.deep_view(), sep@, i as nat),
        decreases parts.len() - i,
    {
        assert(parts.deep_view()[i as int] == parts[i as int]@);
        if i > 0 {
            joined.append(sep);
        }
        joined.append(parts[i].as_str());
        proof {
            if i == 0 {
                assert(joined@ =~= parts[0]@);
            }
        }
        i += 1;
    }
    joined
}

/// Makes a path fit, as far as initials can make it, in `target_len`
/// grapheme clusters: each name in turn is compacted to the room that the
/// other names and their separators leave.
pub fn compact_path(path: &Vec<String>, sep: &str, target_len: usize) -> (compacted: String)
    ensures
        compacted@ == compact_path_of(path.deep_view(), sep@, target_len as nat),
{
    let mut names = clone_texts(path);
    let ghost given = path.deep_view();
    let n = names.len();
    let sep_width = grapheme_len(sep);
    let mut i: usize = 0;
    while i < n
        invariant
            i <= n,
            n == names.len(),
            n == given.len(),
            sep_width == width_of(sep@),
            names.deep_view() == compacted_names(given, sep@, target_len as nat, i as nat),
        decreases n - i,
    {
        let ghost before = names.deep_view();
        let mut taken: u128 = 0;
        let mut full = false;
        let mut j: usize = 0;
        while j < n
            invariant
                j <= n,
                i < n,
                n == names.len(),
                before == names.deep_view(),
                sep_width == width_of(sep@),
                !full ==> taken == width_beside(before, sep@, before[i as int], j as nat),
                full ==> width_beside(before, sep@, before[i as int], j as nat) >= target_len,
            decreases n - j,
        {
            assert(before[j as int] == names[j as int]@);
            assert(before[i as int] == names[i as int]@);
            if names[j] != names[i] {
                let width = grapheme_len(names[j].as_str());
                if !full {
                    if taken >= target_len as u128 {
                        full = true;
                    } else {
                        taken = taken + width as u128 + sep_width as u128;
                    }
                }
            }
            j += 1;
        }
        let room: usize = if full || taken >= target_len as u128 {
            0
        } else {
            (target_len as u128 - taken) as usize
        };
        assert(room == room_for(before, sep@, target_len as nat, i as int));
        let title = compact_title(names[i].as_str(), room);
        names.set(i, title);
        assert(names.deep_view() =~= before.update(i as int, title@));
        proof {
            lemma_compacted_names_len(given, sep@, target_len as nat, i as nat);
        }
        i += 1;
    }
    join(&names, sep)
}

/// A text written `count` times in a row.
pub open spec fn repeated(s: Seq<char>, count: nat) -> Seq<char>
    decreases count,
{
    if count == 0 {
        Seq::empty()
    } else {
        repeated(s, (count - 1) as nat) + s
    }
}

/// The number of spacers in a title bar of a width: what the two texts and
/// the two corners leave, and one at least.
pub open spec fn padding_of(left: Seq<char>, right: Seq<char>, width: u16) -> nat {
    let used = width_of(left) + width_of(right) + 2;
    if width > used + 1 {
        (width - used) as nat
    } else {
        1
    }
}

/// A title bar: one text at the left, one at the right, and spacers between
/// them that fill the width, the two corners taken off.
pub fn render_titlebar(left: String, spacer: &str, right: String, width: u16) -> (bar: String)
    ensures
        bar@ == left@ + repeated(spacer@, padding_of(left@, right@, width)) + right@,
{
    // The 2 comes from each corner taking up one char
    let used_space: u128 = grapheme_len(left.as_str()) as u128 + grapheme_len(right.as_str()) as u128
        + 2;
    let padding: u16 = if (width as u128) > used_space + 1 {
        (width as u128 - used_space) as u16
    } else {
        1
    };
    let mut bar = left;
    let mut i: u16 = 0;
    assert(bar@ =~= left@ + repeated(spacer@, 0));
    while i < padding
        invariant
            i <= padding,
            bar@ == left@ + repeated(spacer@, i as nat),
        decreases padding - i,
    {
        bar.append(spacer);
        i += 1;
        assert(bar@ =~= left@ + repeated(spacer@, i as nat));
    }
    bar.append(right.as_str());
    bar
}

} // verus!
