use vstd::prelude::*;

use crate::query::compiled;
use crate::query::compiled::{run_query, utf8_text, Capture, CompiledQuery};
use crate::query::language;
use crate::query::language::Language;

verus! {

/// A compiled query together with the language whose files it runs on.
#[derive(Debug)]
pub struct Extractor {
    language: Language,
    query: CompiledQuery,
}

impl Extractor {
    /// The language of the files this extractor reads.
    pub closed spec fn spec_language(&self) -> Language {
        self.language
    }

    /// The query this extractor runs.
    pub closed spec fn spec_query(&self) -> CompiledQuery {
        self.query
    }

    pub fn new(language: Language, query: CompiledQuery) -> (extractor: Extractor)
        ensures
            extractor.spec_language() == language,
            extractor.spec_query() == query,
    {
        Extractor { language, query }
    }

    pub fn language(&self) -> (language: Language)
        ensures
            language == self.spec_language(),
    {
        self.language
    }

    pub fn query(&self) -> (query: &CompiledQuery)
        ensures
            *query == self.spec_query(),
    {
        &self.query
    }
}

/// A position in a text: row and column, counted from 0.
#[derive(Debug, Clone, Copy, PartialEq, Eq, Hash)]
pub struct Point {
    pub row: usize,
    pub column: usize,
}

/// One capture of a query in a text: the capture's name, the text it covers and where it
/// starts and ends.
#[derive(Debug, PartialEq, Eq)]
pub struct ExtractedMatch {
    pub name: String,
    pub text: String,
    pub start: Point,
    pub end: Point,
}

/// The matches of a query in one text, with the file it came from and the file's language.
#[derive(Debug, PartialEq, Eq)]
pub struct ExtractedFile {
    pub file: Option<String>,
    pub file_type: String,
    pub matches: Vec<ExtractedMatch>,
}

/// A capture whose bytes are not UTF-8 text.
#[derive(Debug)]
pub struct ExtractError {
    pub start_byte: usize,
    pub end_byte: usize,
}

/// The bytes a capture covers.
pub open spec fn capture_bytes(text: Seq<u8>, capture: (nat, nat, nat, nat, nat, nat, nat)) -> Seq<
    u8,
> {
    text.subrange(capture.1 as int, capture.2 as int)
}

/// The first of the first `n` captures whose bytes are not UTF-8 text.
pub open spec fn first_non_text(
    text: Seq<u8>,
    captures: Seq<(nat, nat, nat, nat, nat, nat, nat)>,
    n: nat,
) -> Option<int>
    decreases n,
{
    if n == 0 {
        None
    } else {
        match first_non_text(text, captures, (n - 1) as nat) {
            Some(k) => Some(k),
            None => if vstd::utf8::valid_utf8(capture_bytes(text, captures[n - 1])) {
                None
            } else {
                Some(n - 1)
            },
        }
    }
}

/// Whether `m` is the match built from `capture` of a query with capture names `names` in
/// `text`: the capture's name, the text of its bytes and its positions.
pub open spec fn match_from(
    names: Seq<Seq<char>>,
    text: Seq<u8>,
    capture: (nat, nat, nat, nat, nat, nat, nat),
    m: ExtractedMatch,
) -> bool {
    &&& m.name@ == names[capture.0 as int]
    &&& m.text@ == vstd::utf8::decode_utf8(capture_bytes(text, capture))
    &&& m.start.row == capture.3
    &&& m.start.column == capture.4
    &&& m.end.row == capture.5
    &&& m.end.column == capture.6
}

/// Once a capture that is not text is found, it stays the first one.
proof fn lemma_first_non_text_stays(
    text: Seq<u8>,
    captures: Seq<(nat, nat, nat, nat, nat, nat, nat)>,
    n: nat,
    m: nat,
)
    requires
        n <= m,
        first_non_text(text, captures, n) is Some,
    ensures
        first_non_text(text, captures, m) == first_non_text(text, captures, n),
    decreases m - n,
{
    if n < m {
        lemma_first_non_text_stays(text, captures, n, (m - 1) as nat);
    }
}

impl Extractor {
    /// Runs the query over `text`, the contents of `file`. Each capture becomes a match,
    /// in the order tree-sitter reports them; a capture whose bytes are not UTF-8 text is an
    /// error. Without captures there is nothing extracted.
    pub fn extract_from_text(&self, file: Option<String>, text: &[u8]) -> (extracted: Result<
        Option<ExtractedFile>,
        ExtractError,
    >)
        ensures
            ({
                let lang = self.spec_query().language();
                let source = self.spec_query().source();
                let captures = compiled::query_captures(lang, source, text@);
                let names = compiled::query_capture_names(lang, source);
                match extracted {
                    Err(e) => match first_non_text(text@, captures, captures.len()) {
                        Some(k) => e.start_byte == captures[k].1 && e.end_byte == captures[k].2,
                        None => false,
                    },
                    Ok(None) => first_non_text(text@, captures, captures.len()) is None
                        && captures.len() == 0,
                    Ok(Some(f)) => {
                        &&& first_non_text(text@, captures, captures.len()) is None
                        &&& captures.len() > 0
                        &&& f.file == file
                        &&& f.file_type@ == language::language_name(self.spec_language())
                        &&& f.matches@.len() == captures.len()
                        &&& forall|k: int|
                            0 <= k < captures.len() ==> match_from(
                                names,
                                text@,
                                captures[k],
                                #[trigger] f.matches@[k],
                            )
                    },
                }
            }),
    {
        let ghost lang = self.query.language();
        let ghost source = self.query.source();
        let ghost found = compiled::query_captures(lang, source, text@);
        let captures = run_query(&self.query, text);
        let names = self.query.capture_names();
        let ghost name_texts = compiled::query_capture_names(lang, source);
        assert(found.len() == captures@.len());
        let mut matches: Vec<ExtractedMatch> = Vec::new();
        let mut i: usize = 0;
        while i < captures.len()
            invariant
                lang == self.query.language(),
                source == self.query.source(),
                found == compiled::query_captures(lang, source, text@),
                captures@.map_values(|c: Capture| c.spec_tuple()) == found,
                names@.map_values(|name: String| name@) == name_texts,
                forall|k: int|
                    0 <= k < captures@.len() ==> {
                        &&& (#[trigger] captures@[k]).index < name_texts.len()
                        &&& captures@[k].start_byte <= captures@[k].end_byte <= text@.len()
                    },
                i <= captures@.len(),
                first_non_text(text@, found, i as nat) is None,
                matches@.len() == i,
                forall|k: int|
                    0 <= k < i ==> match_from(name_texts, text@, found[k], #[trigger] matches@[k]),
            decreases captures.len() - i,
        {
            let capture = captures[i];
            assert(found[i as int] == capture.spec_tuple());
            let bytes = vstd::slice::slice_subrange(text, capture.start_byte, capture.end_byte);
            match utf8_text(bytes) {
                Some(t) => {
                    let name = names[capture.index].clone();
                    assert(name@ == name_texts[capture.index as int]);
                    matches.push(
                        ExtractedMatch {
                            name,
                            text: String::from_str(t),
                            start: Point { row: capture.start_row, column: capture.start_column },
                            end: Point { row: capture.end_row, column: capture.end_column },
                        },
                    );
                },
                None => {
                    proof {
                        assert(first_non_text(text@, found, (i + 1) as nat) == Some(i as int));
                        lemma_first_non_text_stays(text@, found, (i + 1) as nat, found.len());
                    }
                    return Err(
                        ExtractError { start_byte: capture.start_byte, end_byte: capture.end_byte },
                    );
                },
            }
            i = i + 1;
        }
        if matches.len() == 0 {
            Ok(None)
        } else {
            Ok(
                Some(
                    ExtractedFile { file, file_type: self.language.to_string(), matches },
                ),
            )
        }
    }
}

/// The decimal digit `d`.
pub open spec fn digit(d: nat) -> char {
    if d == 0 {
        '0'
    } else if d == 1 {
        '1'
    } else if d == 2 {
        '2'
    } else if d == 3 {
        '3'
    } else if d == 4 {
        '4'
    } else if d == 5 {
        '5'
    } else if d == 6 {
        '6'
    } else if d == 7 {
        '7'
    } else if d == 8 {
        '8'
    } else {
        '9'
    }
}

/// The decimal numeral of `n`, without leading zeros.
pub open spec fn decimal(n: nat) -> Seq<char>
    decreases n,
{
    if n < 10 {
        seq![digit(n)]
    } else {
        decimal(n / 10) + seq![digit(n % 10)]
    }
}

/// Whether `c` is one of the ten decimal digits.
pub open spec fn is_digit(c: char) -> bool {
    '0' as int <= c as int <= '9' as int
}

/// The number that the digits `text` write, the last digit the units.
pub open spec fn numeral_value(text: Seq<char>) -> int
    decreases text.len(),
{
    if text.len() == 0 {
        0
    } else {
        numeral_value(text.drop_last()) * 10 + (text.last() as int - '0' as int)
    }
}

/// The digit for `d` is a digit of value `d`.
proof fn lemma_digit(d: nat)
    requires
        d < 10,
    ensures
        is_digit(digit(d)),
        digit(d) as int - '0' as int == d,
{
}

/// The numeral of `n` is made of digits only, has no leading zero unless it is `0`, and
/// reads back as `n`.
pub proof fn lemma_decimal_reads_back(n: nat)
    ensures
        decimal(n).len() > 0,
        forall|i: int| 0 <= i < decimal(n).len() ==> is_digit(#[trigger] decimal(n)[i]),
        decimal(n)[0] == '0' ==> n == 0,
        numeral_value(decimal(n)) == n,
    decreases n,
{
    if n < 10 {
        lemma_digit(n);
        assert(seq![digit(n)].drop_last() =~= Seq::<char>::empty());
        assert(numeral_value(Seq::<char>::empty()) == 0);
        assert(seq![digit(n)].last() == digit(n));
    } else {
        lemma_decimal_reads_back(n / 10);
        lemma_digit(n % 10);
        let text = decimal(n);
        assert(text.drop_last() =~= decimal(n / 10));
        assert(text.last() == digit(n % 10));
        assert forall|i: int| 0 <= i < text.len() implies is_digit(#[trigger] text[i]) by {
            if i < text.len() - 1 {
                assert(text[i] == decimal(n / 10)[i]);
            }
        }
        assert(text[0] == decimal(n / 10)[0]);
        assert(numeral_value(text) == numeral_value(decimal(n / 10)) * 10 + (n % 10));
        assert((n / 10) * 10 + n % 10 == n) by (nonlinear_arith);
    }
}

/// The text of the digit `d`.
fn digit_text(d: u128) -> (text: &'static str)
    requires
        d < 10,
    ensures
        text@ == seq![digit(d as nat)],
{
    proof {
        reveal_strlit("0");
        reveal_strlit("1");
        reveal_strlit("2");
        reveal_strlit("3");
        reveal_strlit("4");
        reveal_strlit("5");
        reveal_strlit("6");
        reveal_strlit("7");
        reveal_strlit("8");
        reveal_strlit("9");
    }
    if d == 0 {
        "0"
    } else if d == 1 {
        "1"
    } else if d == 2 {
        "2"
    } else if d == 3 {
        "3"
    } else if d == 4 {
        "4"
    } else if d == 5 {
        "5"
    } else if d == 6 {
        "6"
    } else if d == 7 {
        "7"
    } else if d == 8 {
        "8"
    } else {
        "9"
    }
}

/// The decimal numeral of `n`.
fn decimal_text(n: u128) -> (text: String)
    ensures
        text@ == decimal(n as nat),
    decreases n,
{
    if n < 10 {
        String::from_str(digit_text(n))
    } else {
        let mut text = decimal_text(n / 10);
        text.append(digit_text(n % 10));
        text
    }
}

/// How the file of a set of matches is named in the output.
pub open spec fn file_label(file: Option<String>) -> Seq<char> {
    match file {
        Some(name) => name@,
        None => "NO FILE"@,
    }
}

/// The line of a match: the file, the row and column of its start counted from 1, its
/// name and its text, separated by colons.
pub open spec fn match_line(label: Seq<char>, m: ExtractedMatch) -> Seq<char> {
    label + ":"@ + decimal((m.start.row + 1) as nat) + ":"@ + decimal((m.start.column + 1) as nat) + ":"@
        + m.name@ + ":"@ + m.text@ + "\n"@
}

/// The lines of the matches `matches` of the file named `label`.
pub open spec fn match_lines(label: Seq<char>, matches: Seq<ExtractedMatch>) -> Seq<char>
    decreases matches.len(),
{
    if matches.len() == 0 {
        Seq::empty()
    } else {
        match_lines(label, matches.drop_last()) + match_line(label, matches.last())
    }
}

/// One match gives one line: the file, the row and then the column where the match starts,
/// both counted from 1, the match's name and its text, separated by colons.
pub proof fn lemma_line_of_one_match(label: Seq<char>, m: ExtractedMatch)
    ensures
        match_lines(label, seq![m]) == label + ":"@ + decimal((m.start.row + 1) as nat) + ":"@
            + decimal((m.start.column + 1) as nat) + ":"@ + m.name@ + ":"@ + m.text@ + "\n"@,
{
    assert(seq![m].drop_last() =~= Seq::<ExtractedMatch>::empty());
    assert(seq![m].last() == m);
    assert(match_lines(label, Seq::<ExtractedMatch>::empty()) == Seq::<char>::empty());
    assert(Seq::<char>::empty() + match_line(label, m) =~= match_line(label, m));
}

/// The lines of matches one after the other are the lines of the first ones followed by
/// the lines of the others.
pub proof fn lemma_lines_concatenate(
    label: Seq<char>,
    first: Seq<ExtractedMatch>,
    second: Seq<ExtractedMatch>,
)
    ensures
        match_lines(label, first + second) == match_lines(label, first) + match_lines(
            label,
            second,
        ),
    decreases second.len(),
{
    if second.len() == 0 {
        assert(first + second =~= first);
        assert(match_lines(label, first) + Seq::<char>::empty() =~= match_lines(label, first));
    } else {
        lemma_lines_concatenate(label, first, second.drop_last());
        assert((first + second).drop_last() =~= first + second.drop_last());
        assert((first + second).last() == second.last());
        assert(match_lines(label, first) + match_lines(label, second.drop_last()) + match_line(
            label,
            second.last(),
        ) =~= match_lines(label, first) + (match_lines(label, second.drop_last()) + match_line(
            label,
            second.last(),
        )));
    }
}

/// The line of the match at `k` stands after the lines of the matches before it and before
/// the lines of those after it, and reports where that match starts.
pub proof fn lemma_line_of_each_match(label: Seq<char>, matches: Seq<ExtractedMatch>, k: int)
    requires
        0 <= k < matches.len(),
    ensures
        match_lines(label, matches) == match_lines(label, matches.take(k)) + (label + ":"@
            + decimal((matches[k].start.row + 1) as nat) + ":"@ + decimal(
            (matches[k].start.column + 1) as nat,
        ) + ":"@ + matches[k].name@ + ":"@ + matches[k].text@ + "\n"@) + match_lines(
            label,
            matches.skip(k + 1),
        ),
{
    let before = matches.take(k);
    let after = matches.skip(k + 1);
    assert(matches =~= before + (seq![matches[k]] + after));
    lemma_lines_concatenate(label, before, seq![matches[k]] + after);
    lemma_lines_concatenate(label, seq![matches[k]], after);
    lemma_line_of_one_match(label, matches[k]);
    assert(match_lines(label, before) + (match_lines(label, seq![matches[k]]) + match_lines(
        label,
        after,
    )) =~= match_lines(label, before) + match_lines(label, seq![matches[k]]) + match_lines(
        label,
        after,
    ));
}

impl ExtractedFile {
    /// The matches as lines of text, one per match.
    pub fn to_lines(&self) -> (text: String)
        ensures
            text@ == match_lines(file_label(self.file), self.matches@),
    {
        let label = match &self.file {
            Some(name) => name.clone(),
            None => String::from_str("NO FILE"),
        };
        let mut text = String::new();
        let mut i: usize = 0;
        while i < self.matches.len()
            invariant
                i <= self.matches@.len(),
                label@ == file_label(self.file),
                text@ == match_lines(label@, self.matches@.take(i as int)),
            decreases self.matches.len() - i,
        {
            let m = &self.matches[i];
            assert(self.matches@.take(i + 1).drop_last() =~= self.matches@.take(i as int));
            assert(self.matches@.take(i + 1).last() == self.matches@[i as int]);
            text.append(label.as_str());
            text.append(":");
            text.append(decimal_text(m.start.row as u128 + 1).as_str());
            text.append(":");
            text.append(decimal_text(m.start.column as u128 + 1).as_str());
            text.append(":");
            text.append(m.name.as_str());
            text.append(":");
            text.append(m.text.as_str());
            text.append("\n");
            i = i + 1;
        }
        assert(self.matches@.take(self.matches@.len() as int) =~= self.matches@);
        text
    }
}

} // verus!
