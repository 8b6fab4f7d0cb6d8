use vstd::prelude::*;

use crate::query::language;
use crate::query::language::Language;

verus! {

/// The listing of `langs`: each name on a line of its own.
pub open spec fn listing(langs: Seq<Language>) -> Seq<char>
    decreases langs.len(),
{
    if langs.len() == 0 {
        Seq::empty()
    } else {
        listing(langs.drop_last()) + language::language_name(langs.last()) + "\n"@
    }
}

/// The text that lists the known languages, one name per line.
pub fn show_languages() -> (text: String)
    ensures
        text@ == listing(language::all_languages()),
{
    let langs = Language::all();
    let mut text = String::new();
    let mut i: usize = 0;
    while i < langs.len()
        invariant
            i <= langs@.len(),
            langs@ == language::all_languages(),
            text@ == listing(langs@.take(i as int)),
        decreases langs.len() - i,
    {
        assert(langs@.take(i + 1).drop_last() =~= langs@.take(i as int));
        let name = langs[i].to_string();
        text.append(name.as_str());
        text.append("\n");
        i = i + 1;
    }
    assert(langs@.take(langs.len() as int) =~= langs@);
    text
}

/// Whether `word` occurs in `text` starting at `i`.
pub open spec fn occurs_at(text: Seq<char>, word: Seq<char>, i: int) -> bool {
    &&& 0 <= i
    &&& i + word.len() <= text.len()
    &&& text.subrange(i, i + word.len()) == word
}

/// Whether `word` occurs anywhere in `text`.
pub open spec fn mentions(text: Seq<char>, word: Seq<char>) -> bool {
    exists|i: int| occurs_at(text, word, i)
}

/// `text` with each occurrence of the non-empty `pattern` replaced by `replacement`, the
/// occurrences taken from the left and not overlapping.
pub open spec fn replace_all(text: Seq<char>, pattern: Seq<char>, replacement: Seq<char>) -> Seq<
    char,
>
    recommends
        pattern.len() > 0,
    decreases text.len(),
{
    if pattern.len() == 0 || text.len() == 0 {
        text
    } else if pattern.len() <= text.len() && text.take(pattern.len() as int) == pattern {
        replacement + replace_all(text.skip(pattern.len() as int), pattern, replacement)
    } else {
        seq![text[0]] + replace_all(text.skip(1), pattern, replacement)
    }
}

/// The text the classifier is shown for a match: the keyword `unsafe` and its following
/// space become one space.
pub open spec fn without_unsafe(text: Seq<char>) -> Seq<char> {
    replace_all(text, "unsafe "@, " "@)
}

/// A match of a query: its text and where it starts and ends (rows and columns from 0).
pub struct MatchText {
    pub text: String,
    pub start_row: usize,
    pub start_column: usize,
    pub end_row: usize,
    pub end_column: usize,
}

/// A code fragment to classify: the match's text without the `unsafe` keyword and where the
/// match starts and ends (rows and columns from 1).
pub struct ClassificationInput {
    pub text: String,
    pub start_row: usize,
    pub start_column: usize,
    pub end_row: usize,
    pub end_column: usize,
}

/// Whether a match is classified: its text mentions `unsafe`.
pub open spec fn is_candidate(m: MatchText) -> bool {
    mentions(m.text@, "unsafe"@)
}

/// The matches that are classified, in order.
pub open spec fn candidates(matches: Seq<MatchText>) -> Seq<MatchText>
    decreases matches.len(),
{
    if matches.len() == 0 {
        Seq::empty()
    } else if is_candidate(matches.last()) {
        candidates(matches.drop_last()).push(matches.last())
    } else {
        candidates(matches.drop_last())
    }
}

/// Whether `input` is what the classifier is shown for the match `m`.
pub open spec fn input_for(m: MatchText, input: ClassificationInput) -> bool {
    &&& input.text@ == without_unsafe(m.text@)
    &&& input.start_row == m.start_row + 1
    &&& input.start_column == m.start_column + 1
    &&& input.end_row == m.end_row + 1
    &&& input.end_column == m.end_column + 1
}

/// The classifier is shown the same text for two matches that differ only in where
/// `unsafe ` stood: it never sees the keyword whose need it judges.
pub proof fn lemma_same_text_without_keyword(
    first: MatchText,
    second: MatchText,
    first_input: ClassificationInput,
    second_input: ClassificationInput,
)
    requires
        input_for(first, first_input),
        input_for(second, second_input),
        without_unsafe(first.text@) == without_unsafe(second.text@),
    ensures
        first_input.text@ == second_input.text@,
{
}

/// Whether the positions of `m` can be counted from 1 in a `usize`.
pub open spec fn positions_fit(m: MatchText) -> bool {
    &&& m.start_row < usize::MAX
    &&& m.start_column < usize::MAX
    &&& m.end_row < usize::MAX
    &&& m.end_column < usize::MAX
}

/// The characters of `s`.
pub(crate) fn chars_of(s: &str) -> (chars: Vec<char>)
    ensures
        chars@ == s@,
{
    broadcast use vstd::string::group_string_axioms;

    let mut chars: Vec<char> = Vec::new();
    for c in it: s.chars()
        invariant
            it.seq() == s@,
            chars@ == it.seq().take(it.index() as int),
    {
        chars.push(c);
    }
    chars
}

/// Whether `word` occurs in `text` at `i`.
fn occurs_at_exec(text: &Vec<char>, word: &Vec<char>, i: usize) -> (found: bool)
    ensures
        found == occurs_at(text@, word@, i as int),
{
    if word.len() > text.len() || i > text.len() - word.len() {
        return false;
    }
    let text_len = text.len();
    let mut k: usize = 0;
    while k < word.len()
        invariant
            text_len == text@.len(),
            i + word@.len() <= text@.len(),
            k <= word@.len(),
            forall|m: int| 0 <= m < k ==> text@[i + m] == word@[m],
        decreases word.len() - k,
    {
        assert(i + k < text@.len());
        if text[i + k] != word[k] {
            assert(text@.subrange(i as int, i + word@.len())[k as int] != word@[k as int]);
            return false;
        }
        k = k + 1;
    }
    assert(text@.subrange(i as int, i + word@.len()) =~= word@);
    true
}

/// Whether `word` occurs anywhere in `text`.
fn mentions_exec(text: &Vec<char>, word: &Vec<char>) -> (found: bool)
    ensures
        found == mentions(text@, word@),
{
    let mut i: usize = 0;
    while i < text.len()
        invariant
            i <= text@.len(),
            forall|j: int| 0 <= j < i ==> !occurs_at(text@, word@, j),
        decreases text.len() - i,
    {
        if occurs_at_exec(text, word, i) {
            return true;
        }
        i = i + 1;
    }
    if word.len() == 0 && i == text.len() {
        assert(occurs_at(text@, word@, i as int)) by {
            assert(text@.subrange(i as int, i as int) =~= word@);
        }
        return true;
    }
    assert forall|j: int| !occurs_at(text@, word@, j) by {
        if j >= i {
            assert(j + word@.len() > text@.len());
        }
    }
    false
}

/// One step of a replacement that does not start at the front of `text`.
proof fn lemma_replace_all_step(text: Seq<char>, pattern: Seq<char>, replacement: Seq<char>)
    requires
        pattern.len() > 0,
        text.len() > 0,
        !(pattern.len() <= text.len() && text.take(pattern.len() as int) == pattern),
    ensures
        replace_all(text, pattern, replacement) == seq![text[0]] + replace_all(
            text.skip(1),
            pattern,
            replacement,
        ),
{
}

/// An occurrence of the pattern at the front is replaced, whatever follows it.
pub proof fn lemma_leading_occurrence_replaced(
    rest: Seq<char>,
    pattern: Seq<char>,
    replacement: Seq<char>,
)
    requires
        pattern.len() > 0,
    ensures
        replace_all(pattern + rest, pattern, replacement) == replacement + replace_all(
            rest,
            pattern,
            replacement,
        ),
{
    let text = pattern + rest;
    assert(text.take(pattern.len() as int) =~= pattern);
    assert(text.skip(pattern.len() as int) =~= rest);
}

/// A character at the front that does not begin an occurrence of the pattern is kept.
pub proof fn lemma_leading_character_kept(
    c: char,
    rest: Seq<char>,
    pattern: Seq<char>,
    replacement: Seq<char>,
)
    requires
        pattern.len() > 0,
        !occurs_at(seq![c] + rest, pattern, 0),
    ensures
        replace_all(seq![c] + rest, pattern, replacement) == seq![c] + replace_all(
            rest,
            pattern,
            replacement,
        ),
{
    let text = seq![c] + rest;
    assert(text.skip(1) =~= rest);
    if pattern.len() <= text.len() && text.take(pattern.len() as int) == pattern {
        assert(text.subrange(0, pattern.len() as int) =~= text.take(pattern.len() as int));
    }
}

/// A text in which the pattern does not occur is left as it is.
pub proof fn lemma_text_without_pattern_unchanged(
    text: Seq<char>,
    pattern: Seq<char>,
    replacement: Seq<char>,
)
    requires
        pattern.len() > 0,
        !mentions(text, pattern),
    ensures
        replace_all(text, pattern, replacement) == text,
    decreases text.len(),
{
    if text.len() > 0 {
        let rest = text.skip(1);
        assert(!occurs_at(text, pattern, 0));
        assert(text =~= seq![text[0]] + rest);
        lemma_leading_character_kept(text[0], rest, pattern, replacement);
        assert forall|i: int| !occurs_at(rest, pattern, i) by {
            if occurs_at(rest, pattern, i) {
                assert(text.subrange(i + 1, i + 1 + pattern.len()) =~= rest.subrange(
                    i,
                    i + pattern.len(),
                ));
                assert(occurs_at(text, pattern, i + 1));
            }
        }
        lemma_text_without_pattern_unchanged(rest, pattern, replacement);
    }
}

/// Replacement goes occurrence by occurrence: around a character that the pattern does not
/// hold, such as a line break for `unsafe `, the text before and the text after are each
/// replaced on their own and the character is kept.
pub proof fn lemma_replacement_is_local(
    before: Seq<char>,
    c: char,
    after: Seq<char>,
    pattern: Seq<char>,
    replacement: Seq<char>,
)
    requires
        pattern.len() > 0,
        !pattern.contains(c),
    ensures
        replace_all(before + seq![c] + after, pattern, replacement) == replace_all(
            before,
            pattern,
            replacement,
        ) + seq![c] + replace_all(after, pattern, replacement),
    decreases before.len(),
{
    let text = before + seq![c] + after;
    let n = pattern.len() as int;
    if before.len() == 0 {
        assert(text =~= seq![c] + after);
        if n <= text.len() && text.take(n) == pattern {
            assert(text.take(n)[0] == c);
            assert(pattern[0] == c);
        }
        assert(text.skip(1) =~= after);
        assert(Seq::<char>::empty() + seq![c] + replace_all(after, pattern, replacement)
            =~= seq![c] + replace_all(after, pattern, replacement));
    } else if n <= text.len() && text.take(n) == pattern {
        if n > before.len() {
            assert(text.take(n)[before.len() as int] == c);
            assert(pattern[before.len() as int] == c);
        }
        assert(before.take(n) =~= text.take(n));
        assert(text.skip(n) =~= before.skip(n) + seq![c] + after);
        lemma_replacement_is_local(before.skip(n), c, after, pattern, replacement);
        assert(replacement + (replace_all(before.skip(n), pattern, replacement) + seq![c]
            + replace_all(after, pattern, replacement)) =~= replacement + replace_all(
            before.skip(n),
            pattern,
            replacement,
        ) + seq![c] + replace_all(after, pattern, replacement));
    } else {
        if n <= before.len() && before.take(n) == pattern {
            assert(text.take(n) =~= before.take(n));
        }
        assert(text[0] == before[0]);
        assert(text.skip(1) =~= before.skip(1) + seq![c] + after);
        lemma_replacement_is_local(before.skip(1), c, after, pattern, replacement);
        assert(seq![before[0]] + (replace_all(before.skip(1), pattern, replacement) + seq![c]
            + replace_all(after, pattern, replacement)) =~= seq![before[0]] + replace_all(
            before.skip(1),
            pattern,
            replacement,
        ) + seq![c] + replace_all(after, pattern, replacement));
    }
}

/// The keyword is taken out of each line of a fragment on its own: a line break neither
/// stops nor joins the replacement.
pub proof fn lemma_keyword_removed_line_by_line(before: Seq<char>, after: Seq<char>)
    ensures
        without_unsafe(before + seq!['\n'] + after) == without_unsafe(before) + seq!['\n']
            + without_unsafe(after),
{
    reveal_strlit("unsafe ");
    let keyword = "unsafe "@;
    assert(!keyword.contains('\n')) by {
        assert forall|i: int| 0 <= i < keyword.len() implies keyword[i] != '\n' by {
            assert(keyword =~= seq!['u', 'n', 's', 'a', 'f', 'e', ' ']);
        }
    }
    lemma_replacement_is_local(before, '\n', after, keyword, " "@);
}

/// The keyword `unsafe` with its space at the front of a text becomes one space, whatever
/// the rest of the text holds.
pub proof fn lemma_keyword_at_front_becomes_space(rest: Seq<char>)
    ensures
        without_unsafe("unsafe "@ + rest) == " "@ + without_unsafe(rest),
{
    reveal_strlit("unsafe ");
    lemma_leading_occurrence_replaced(rest, "unsafe "@, " "@);
}

/// `text` with each occurrence of `pattern` replaced by `replacement`, from the left.
fn replace_text(text: &str, pattern: &str, replacement: &str) -> (replaced: String)
    requires
        pattern@.len() > 0,
    ensures
        replaced@ == replace_all(text@, pattern@, replacement@),
{
    let chars = chars_of(text);
    let pat = chars_of(pattern);
    let mut out = String::new();
    let mut kept: usize = 0;
    let mut i: usize = 0;
    assert(chars@.skip(0) =~= chars@);
    assert(out@ + chars@.subrange(0, 0) =~= Seq::<char>::empty());
    while i < chars.len()
        invariant
            chars@ == text@,
            pat@ == pattern@,
            pat@.len() > 0,
            kept <= i <= chars@.len(),
            out@ + chars@.subrange(kept as int, i as int) + replace_all(
                chars@.skip(i as int),
                pat@,
                replacement@,
            ) == replace_all(chars@, pat@, replacement@),
        decreases chars.len() - i,
    {
        let ghost rest = chars@.skip(i as int);
        let ghost before = out@ + chars@.subrange(kept as int, i as int);
        if occurs_at_exec(&chars, &pat, i) {
            assert(rest.take(pat@.len() as int) =~= chars@.subrange(i as int, i + pat@.len()));
            assert(rest.skip(pat@.len() as int) =~= chars@.skip(i + pat@.len()));
            let run = text.substring_char(kept, i);
            out.append(run);
            out.append(replacement);
            i = i + pat.len();
            kept = i;
            assert(out@ =~= before + replacement@);
            assert(chars@.subrange(kept as int, i as int) =~= Seq::<char>::empty());
            assert(out@ + chars@.subrange(kept as int, i as int) =~= out@);
        } else {
            assert(!(pat@.len() <= rest.len() && rest.take(pat@.len() as int) == pat@)) by {
                if pat@.len() <= rest.len() && rest.take(pat@.len() as int) == pat@ {
                    assert(rest.take(pat@.len() as int) =~= chars@.subrange(
                        i as int,
                        i + pat@.len(),
                    ));
                }
            }
            proof {
                lemma_replace_all_step(rest, pat@, replacement@);
            }
            assert(rest.skip(1) =~= chars@.skip(i + 1));
            assert(rest[0] == chars@[i as int]);
            assert(chars@.subrange(kept as int, i + 1) =~= chars@.subrange(kept as int, i as int)
                + seq![chars@[i as int]]);
            i = i + 1;
        }
    }
    let run = text.substring_char(kept, i);
    out.append(run);
    assert(chars@.skip(i as int) =~= Seq::<char>::empty());
    out
}

/// The code fragments to classify: the matches whose text mentions `unsafe`, in order, each
/// with `unsafe ` turned into a space and its positions counted from 1.
pub fn classification_inputs(matches: &Vec<MatchText>) -> (inputs: Vec<ClassificationInput>)
    requires
        forall|k: int| 0 <= k < matches@.len() && is_candidate(#[trigger] matches@[k])
            ==> positions_fit(matches@[k]),
    ensures
        inputs@.len() == candidates(matches@).len(),
        forall|k: int|
            0 <= k < inputs@.len() ==> input_for(candidates(matches@)[k], #[trigger] inputs@[k]),
{
    let keyword = chars_of("unsafe");
    let mut inputs: Vec<ClassificationInput> = Vec::new();
    let mut i: usize = 0;
    while i < matches.len()
        invariant
            keyword@ == "unsafe"@,
            i <= matches@.len(),
            forall|k: int| 0 <= k < matches@.len() && is_candidate(#[trigger] matches@[k])
                ==> positions_fit(matches@[k]),
            inputs@.len() == candidates(matches@.take(i as int)).len(),
            forall|k: int|
                0 <= k < inputs@.len() ==> input_for(
                    candidates(matches@.take(i as int))[k],
                    #[trigger] inputs@[k],
                ),
        decreases matches.len() - i,
    {
        let m = &matches[i];
        let ghost before = matches@.take(i as int);
        assert(matches@.take(i + 1).drop_last() =~= before);
        assert(matches@.take(i + 1).last() == matches@[i as int]);
        let text = chars_of(m.text.as_str());
        if mentions_exec(&text, &keyword) {
            proof {
                reveal_strlit("unsafe ");
            }
            let stripped = replace_text(m.text.as_str(), "unsafe ", " ");
            inputs.push(
                ClassificationInput {
                    text: stripped,
                    start_row: m.start_row + 1,
                    start_column: m.start_column + 1,
                    end_row: m.end_row + 1,
                    end_column: m.end_column + 1,
                },
            );
        }
        i = i + 1;
    }
    assert(matches@.take(matches.len() as int) =~= matches@);
    inputs
}

/// The length of the longest row of `batch` (0 for no rows).
pub open spec fn longest(batch: Seq<Vec<i64>>) -> nat
    decreases batch.len(),
{
    if batch.len() == 0 {
        0
    } else {
        let rest = longest(batch.drop_last());
        if batch.last()@.len() > rest {
            batch.last()@.len()
        } else {
            rest
        }
    }
}

/// `n` copies of `value`.
pub open spec fn repeated(value: i64, n: nat) -> Seq<i64> {
    Seq::new(n, |_i: int| value)
}

/// `n` copies of `value` are `n` values, each `value`.
pub proof fn lemma_repeated_holds_value(value: i64, n: nat)
    ensures
        repeated(value, n).len() == n,
        forall|t: int| 0 <= t < n ==> #[trigger] repeated(value, n)[t] == value,
{
}

/// Every row is at most as long as the longest, and some row is that long.
proof fn lemma_longest(batch: Seq<Vec<i64>>)
    ensures
        forall|k: int| 0 <= k < batch.len() ==> (#[trigger] batch[k])@.len() <= longest(batch),
        batch.len() > 0 ==> exists|k: int|
            0 <= k < batch.len() && (#[trigger] batch[k])@.len() == longest(batch),
    decreases batch.len(),
{
    if batch.len() > 0 {
        let rest = batch.drop_last();
        lemma_longest(rest);
        assert forall|k: int| 0 <= k < batch.len() implies (#[trigger] batch[k])@.len() <= longest(
            batch,
        ) by {
            if k < batch.len() - 1 {
                assert(rest[k] == batch[k]);
            }
        }
        if batch.last()@.len() <= longest(rest) && rest.len() > 0 {
            let k = choose|k: int| 0 <= k < rest.len() && (#[trigger] rest[k])@.len() == longest(
                rest,
            );
            assert(batch[k] == rest[k]);
        } else {
            assert(batch[batch.len() - 1] == batch.last());
        }
    }
}

/// The token rows of a batch padded with 0 to the length of the longest, and their
/// attention masks: 1 for each token of the row, then 0 for each padding position.
pub fn pad_batch(batch: &Vec<Vec<i64>>) -> (padded: (Vec<Vec<i64>>, Vec<Vec<i64>>))
    requires
        batch@.len() > 0,
    ensures
        padded.0@.len() == batch@.len(),
        padded.1@.len() == batch@.len(),
        forall|k: int|
            0 <= k < batch@.len() ==> (#[trigger] padded.0@[k])@ == batch@[k]@ + repeated(
                0,
                (longest(batch@) - batch@[k]@.len()) as nat,
            ),
        forall|k: int|
            0 <= k < batch@.len() ==> (#[trigger] padded.1@[k])@ == repeated(
                1,
                batch@[k]@.len(),
            ) + repeated(0, (longest(batch@) - batch@[k]@.len()) as nat),
        forall|k: int|
            0 <= k < batch@.len() ==> (#[trigger] padded.0@[k])@.len() == longest(batch@)
                && padded.1@[k]@.len() == longest(batch@),
        forall|k: int, t: int|
            0 <= k < batch@.len() && 0 <= t < longest(batch@) ==> #[trigger] padded.0@[k]@[t] == if t
                < batch@[k]@.len() {
                batch@[k]@[t]
            } else {
                0i64
            },
        forall|k: int, t: int|
            0 <= k < batch@.len() && 0 <= t < longest(batch@) ==> #[trigger] padded.1@[k]@[t] == if t
                < batch@[k]@.len() {
                1i64
            } else {
                0i64
            },
{
    proof {
        lemma_longest(batch@);
    }
    let mut max_len: usize = 0;
    let mut i: usize = 0;
    while i < batch.len()
        invariant
            i <= batch@.len(),
            max_len == longest(batch@.take(i as int)),
        decreases batch.len() - i,
    {
        assert(batch@.take(i + 1).drop_last() =~= batch@.take(i as int));
        assert(batch@.take(i + 1).last() == batch@[i as int]);
        if batch[i].len() > max_len {
            max_len = batch[i].len();
        }
        i = i + 1;
    }
    assert(batch@.take(batch.len() as int) =~= batch@);
    let mut ids: Vec<Vec<i64>> = Vec::new();
    let mut masks: Vec<Vec<i64>> = Vec::new();
    let mut r: usize = 0;
    while r < batch.len()
        invariant
            r <= batch@.len(),
            max_len == longest(batch@),
            forall|k: int| 0 <= k < batch@.len() ==> (#[trigger] batch@[k])@.len() <= max_len,
            ids@.len() == r,
            masks@.len() == r,
            forall|k: int|
                0 <= k < r ==> (#[trigger] ids@[k])@ == batch@[k]@ + repeated(
                    0,
                    (max_len - batch@[k]@.len()) as nat,
                ),
            forall|k: int|
                0 <= k < r ==> (#[trigger] masks@[k])@ == repeated(1, batch@[k]@.len())
                    + repeated(0, (max_len - batch@[k]@.len()) as nat),
        decreases batch.len() - r,
    {
        let row = &batch[r];
        let len = row.len();
        assert(len <= max_len) by {
            assert(batch@[r as int]@.len() <= max_len);
        }
        let mut padded_row: Vec<i64> = Vec::new();
        let mut mask_row: Vec<i64> = Vec::new();
        let mut c: usize = 0;
        while c < max_len
            invariant
                len == row@.len(),
                len <= max_len,
                c <= max_len,
                padded_row@.len() == c,
                mask_row@.len() == c,
                forall|t: int| 0 <= t < c ==> #[trigger] padded_row@[t] == if t < len {
                    row@[t]
                } else {
                    0
                },
                forall|t: int| 0 <= t < c ==> #[trigger] mask_row@[t] == if t < len {
                    1i64
                } else {
                    0
                },
            decreases max_len - c,
        {
            if c < len {
                padded_row.push(row[c]);
                mask_row.push(1);
            } else {
                padded_row.push(0);
                mask_row.push(0);
            }
            c = c + 1;
        }
        assert(padded_row@ =~= row@ + repeated(0, (max_len - len) as nat));
        assert(mask_row@ =~= repeated(1, len as nat) + repeated(0, (max_len - len) as nat));
        ids.push(padded_row);
        masks.push(mask_row);
        r = r + 1;
    }
    assert forall|k: int, t: int|
        0 <= k < batch@.len() && 0 <= t < longest(batch@) implies #[trigger] ids@[k]@[t] == if t
            < batch@[k]@.len() {
            batch@[k]@[t]
        } else {
            0i64
        } && masks@[k]@[t] == if t < batch@[k]@.len() {
            1i64
        } else {
            0i64
        } by {
        lemma_repeated_holds_value(0, (longest(batch@) - batch@[k]@.len()) as nat);
        lemma_repeated_holds_value(1, batch@[k]@.len());
        if t >= batch@[k]@.len() {
            assert(ids@[k]@[t] == repeated(0, (longest(batch@) - batch@[k]@.len()) as nat)[t
                - batch@[k]@.len()]);
            assert(masks@[k]@[t] == repeated(0, (longest(batch@) - batch@[k]@.len()) as nat)[t
                - batch@[k]@.len()]);
        } else {
            assert(masks@[k]@[t] == repeated(1, batch@[k]@.len())[t]);
        }
    }
    (ids, masks)
}

/// The first place to walk and the others, or `None` when no place was given.
pub fn walk_roots(paths: &Vec<String>) -> (roots: Option<(String, Vec<String>)>)
    ensures
        roots is None <==> paths@.len() == 0,
        roots matches Some((first, rest)) ==> first == paths@[0] && rest@ == paths@.skip(1),
{
    if paths.len() == 0 {
        return None;
    }
    let first = paths[0].clone();
    let mut rest: Vec<String> = Vec::new();
    let mut i: usize = 1;
    while i < paths.len()
        invariant
            1 <= i <= paths@.len(),
            rest@ == paths@.subrange(1, i as int),
        decreases paths.len() - i,
    {
        rest.push(paths[i].clone());
        assert(rest@ =~= paths@.subrange(1, i + 1));
        i = i + 1;
    }
    assert(paths@.subrange(1, paths@.len() as int) =~= paths@.skip(1));
    Some((first, rest))
}

} // verus!
