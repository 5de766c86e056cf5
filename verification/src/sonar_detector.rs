use crate::text::{chars_of, is_white_space, lemma_split_first, split_commas, split_ranges, trim, trim_range};
use vstd::prelude::*;

verus! {

/// Levenshtein distance: the least number of single-character insertions,
/// deletions and substitutions that turn `a` into `b`.
pub open spec fn edit_distance(a: Seq<char>, b: Seq<char>) -> nat
    decreases a.len() + b.len(),
{
    if a.len() == 0 {
        b.len()
    } else if b.len() == 0 {
        a.len()
    } else {
        let delete = edit_distance(a.drop_last(), b) + 1;
        let insert = edit_distance(a, b.drop_last()) + 1;
        let substitute = edit_distance(a.drop_last(), b.drop_last()) + if a.last() == b.last() {
            0nat
        } else {
            1nat
        };
        if delete <= insert && delete <= substitute {
            delete
        } else if insert <= substitute {
            insert
        } else {
            substitute
        }
    }
}

/// `strsim::levenshtein`: the Levenshtein distance between the character
/// sequences of `a` and `b`.
#[verifier::external_body]
fn levenshtein(a: &str, b: &str) -> (d: usize)
    ensures
        d == edit_distance(a@, b@),
{
    strsim::levenshtein(a, b)
}

/// A character that OCR cleaning keeps: an ASCII letter or digit, white
/// space, or one of `. , ! ? -`.
pub open spec fn ocr_kept(c: char) -> bool {
    ||| 'a' <= c <= 'z'
    ||| 'A' <= c <= 'Z'
    ||| '0' <= c <= '9'
    ||| is_white_space(c)
    ||| c == '.'
    ||| c == ','
    ||| c == '!'
    ||| c == '?'
    ||| c == '-'
}

/// `s` with every character that OCR cleaning does not keep replaced by a space.
pub open spec fn cleaned(s: Seq<char>) -> Seq<char> {
    s.map_values(|c: char| if ocr_kept(c) { c } else { ' ' })
}

/// The words that a list of OCR texts yields: each text cleaned and trimmed,
/// the empty ones dropped, in order.
pub open spec fn ocr_words(texts: Seq<Seq<char>>) -> Seq<Seq<char>>
    decreases texts.len(),
{
    if texts.len() == 0 {
        Seq::empty()
    } else {
        let rest = ocr_words(texts.drop_last());
        let w = trim(cleaned(texts.last()));
        if w.len() == 0 {
            rest
        } else {
            rest.push(w)
        }
    }
}

/// Whether some string of `strings` lies within Levenshtein distance below
/// `thresh` of `needed`.
pub open spec fn has_close_string(needed: Seq<char>, strings: Seq<String>, thresh: usize) -> bool {
    exists|j: int| 0 <= j < strings.len() && edit_distance(needed, #[trigger] strings[j]@) < thresh
}

/// Whether some comma-separated piece of `wanted` (pieces are not trimmed)
/// lies close to some string of `strings`.
pub open spec fn wants_any(wanted: Seq<char>, strings: Seq<String>, thresh: usize) -> bool {
    exists|k: int|
        0 <= k < split_commas(wanted).len() && has_close_string(
            #[trigger] split_commas(wanted)[k],
            strings,
            thresh,
        )
}

/// A string is at distance 0 from itself.
pub proof fn law_edit_distance_self(a: Seq<char>)
    ensures
        edit_distance(a, a) == 0,
    decreases a.len(),
{
    if a.len() > 0 {
        law_edit_distance_self(a.drop_last());
    }
}

/// The Levenshtein distance is at least the difference of the lengths and at
/// most the greater length, and it is 0 only between equal strings.
pub proof fn law_edit_distance_bounds(a: Seq<char>, b: Seq<char>)
    ensures
        a.len() <= edit_distance(a, b) + b.len(),
        b.len() <= edit_distance(a, b) + a.len(),
        edit_distance(a, b) <= if a.len() >= b.len() { a.len() } else { b.len() },
        edit_distance(a, b) == 0 ==> a == b,
    decreases a.len() + b.len(),
{
    if a.len() == 0 {
        if b.len() == 0 {
            assert(a =~= b);
        }
    } else if b.len() == 0 {
    } else {
        law_edit_distance_bounds(a.drop_last(), b);
        law_edit_distance_bounds(a, b.drop_last());
        law_edit_distance_bounds(a.drop_last(), b.drop_last());
        if edit_distance(a, b) == 0 {
            assert(a.drop_last() == b.drop_last());
            assert(a =~= a.drop_last().push(a.last()));
            assert(b =~= b.drop_last().push(b.last()));
        }
    }
}

/// Cleaning keeps the length, keeps every character that it keeps in place,
/// yields only kept characters, and changes nothing the second time.
pub proof fn law_cleaning(s: Seq<char>)
    ensures
        cleaned(s).len() == s.len(),
        forall|i: int| 0 <= i < s.len() && ocr_kept(s[i]) ==> #[trigger] cleaned(s)[i] == s[i],
        forall|i: int| 0 <= i < s.len() ==> ocr_kept(#[trigger] cleaned(s)[i]),
        cleaned(cleaned(s)) == cleaned(s),
{
    assert(is_white_space(' '));
    assert(cleaned(cleaned(s)) =~= cleaned(s));
}

/// A string that occurs among the recognised strings is needed at every
/// threshold above 0.
pub proof fn law_exact_word_is_needed(needed: Seq<char>, strings: Seq<String>, j: int, thresh: usize)
    requires
        0 <= j < strings.len(),
        strings[j]@ == needed,
        thresh > 0,
    ensures
        has_close_string(needed, strings, thresh),
{
    law_edit_distance_self(needed);
}

/// A wanted item is caught whichever place it has in the list: when any
/// comma-separated piece of `wanted` is close to some string, `wants_any` holds.
pub proof fn law_any_piece_caught(wanted: Seq<char>, strings: Seq<String>, thresh: usize, k: int)
    requires
        0 <= k < split_commas(wanted).len(),
        has_close_string(split_commas(wanted)[k], strings, thresh),
    ensures
        wants_any(wanted, strings, thresh),
{
}

/// The text before the first comma of the wanted list (the whole list if it
/// has none), read exactly among the strings, is caught at every threshold
/// above 0.
pub proof fn law_first_word_caught(
    wanted: Seq<char>,
    strings: Seq<String>,
    thresh: usize,
    j: int,
    i: int,
)
    requires
        0 <= j <= wanted.len(),
        forall|q: int| 0 <= q < j ==> #[trigger] wanted[q] != ',',
        j == wanted.len() || wanted[j] == ',',
        0 <= i < strings.len(),
        strings[i]@ == wanted.subrange(0, j),
        thresh > 0,
    ensures
        wants_any(wanted, strings, thresh),
{
    lemma_split_first(wanted, j);
    law_exact_word_is_needed(split_commas(wanted)[0], strings, i, thresh);
    law_any_piece_caught(wanted, strings, thresh, 0);
}

/// With threshold 0 nothing is ever needed.
pub proof fn law_zero_threshold_needs_nothing(needed: Seq<char>, strings: Seq<String>)
    ensures
        !has_close_string(needed, strings, 0),
{
}

/// No word that OCR cleaning yields is empty.
pub proof fn law_ocr_words_nonempty(texts: Seq<Seq<char>>)
    ensures
        forall|k: int| 0 <= k < ocr_words(texts).len() ==> #[trigger] ocr_words(texts)[k].len() > 0,
    decreases texts.len(),
{
    if texts.len() > 0 {
        law_ocr_words_nonempty(texts.drop_last());
        let rest = ocr_words(texts.drop_last());
        assert forall|k: int| 0 <= k < ocr_words(texts).len() implies #[trigger] ocr_words(texts)[k].len() > 0 by {
            if k < rest.len() {
                assert(ocr_words(texts)[k] == rest[k]);
            }
        }
    }
}

/// Text matching for sonar detection. The OCR engine that reads the frame
/// is driven by the caller, which hands the recognised texts to
/// `strings_from_texts`.
pub struct SonarDetector {}

impl SonarDetector {
    /// `regex::Regex::replace_all` with the pattern `[^a-zA-Z0-9\s.,!?-]` and
    /// the replacement `" "`: every character outside that class becomes a space.
    #[verifier::external_body]
    fn clean_ocr_text(input: &str) -> (s: String)
        ensures
            s@ == cleaned(input@),
    {
        let re = regex::Regex::new(r"[^a-zA-Z0-9\s.,!?-]").unwrap();
        re.replace_all(input, " ").to_string()
    }

    /// The words of the recognised texts: each cleaned and trimmed, the empty
    /// ones dropped.
    pub fn strings_from_texts(texts: &Vec<String>) -> (words: Vec<String>)
        ensures
            words@.len() == ocr_words(texts@.map_values(|t: String| t@)).len(),
            forall|k: int| 0 <= k < words@.len() ==> #[trigger] words@[k]@ == ocr_words(
                texts@.map_values(|t: String| t@),
            )[k],
    {
        let ghost all = texts@.map_values(|t: String| t@);
        let mut words: Vec<String> = Vec::new();
        let mut i: usize = 0;
        while i < texts.len()
            invariant
                all == texts@.map_values(|t: String| t@),
                0 <= i <= texts@.len(),
                words@.len() == ocr_words(all.take(i as int)).len(),
                forall|k: int| 0 <= k < words@.len() ==> #[trigger] words@[k]@ == ocr_words(all.take(i as int))[k],
            decreases texts@.len() - i,
        {
            let cleaned_text: String = Self::clean_ocr_text(texts[i].as_str());
            let chars: Vec<char> = chars_of(cleaned_text.as_str());
            let (a, b) = trim_range(&chars);
            proof {
                assert(all.take(i + 1).drop_last() =~= all.take(i as int));
                assert(all.take(i + 1).last() == texts@[i as int]@);
            }
            if a < b {
                let w: String = cleaned_text.as_str().substring_char(a, b).to_owned();
                words.push(w);
            }
            i = i + 1;
        }
        assert(all.take(texts@.len() as int) =~= all);
        words
    }

    fn has_close(needed: &str, strings: &Vec<String>, thresh: usize) -> (b: bool)
        ensures
            b == has_close_string(needed@, strings@, thresh),
    {
        let mut j: usize = 0;
        while j < strings.len()
            invariant
                0 <= j <= strings@.len(),
                forall|k: int| 0 <= k < j ==> edit_distance(needed@, #[trigger] strings@[k]@) >= thresh,
            decreases strings@.len() - j,
        {
            if levenshtein(needed, strings[j].as_str()) < thresh {
                return true;
            }
            j = j + 1;
        }
        false
    }

    /// Whether some string of `strings` is within Levenshtein distance below
    /// `thresh` of `needed_string`.
    pub fn is_needed_string(needed_string: &str, strings: Vec<String>, thresh: usize) -> (b: bool)
        ensures
            b == has_close_string(needed_string@, strings@, thresh),
    {
        Self::has_close(needed_string, &strings, thresh)
    }

    /// Whether some comma-separated piece of `wanted` is needed, that is, close
    /// to one of `strings`.
    pub fn wants_any(wanted: &str, strings: &Vec<String>, thresh: usize) -> (b: bool)
        ensures
            b == wants_any(wanted@, strings@, thresh),
    {
        let chars: Vec<char> = chars_of(wanted);
        let pieces: Vec<(usize, usize)> = split_ranges(&chars);
        let mut k: usize = 0;
        while k < pieces.len()
            invariant
                chars@ == wanted@,
                pieces@.len() == split_commas(wanted@).len(),
                forall|m: int|
                    0 <= m < pieces@.len() ==> #[trigger] pieces@[m].0 <= pieces@[m].1 <= wanted@.len()
                        && wanted@.subrange(pieces@[m].0 as int, pieces@[m].1 as int) == split_commas(
                        wanted@,
                    )[m],
                0 <= k <= pieces@.len(),
                forall|m: int|
                    0 <= m < k ==> !has_close_string(#[trigger] split_commas(wanted@)[m], strings@, thresh),
            decreases pieces@.len() - k,
        {
            let (a, b) = pieces[k];
            let piece: &str = wanted.substring_char(a, b);
            if Self::has_close(piece, strings, thresh) {
                assert(has_close_string(split_commas(wanted@)[k as int], strings@, thresh));
                return true;
            }
            k = k + 1;
        }
        false
    }
}

} // verus!
