use vstd::prelude::*;

use crate::query::extractor::ExtractedFile;
use crate::safe::inference::chars_of;

verus! {

/// Whether `a` comes before `b` or equals it, comparing element by element, a sequence
/// before its extensions.
pub open spec fn lex_le(a: Seq<i64>, b: Seq<i64>) -> bool
    decreases a.len(),
{
    if a.len() == 0 {
        true
    } else if b.len() == 0 {
        false
    } else if a[0] != b[0] {
        a[0] < b[0]
    } else {
        lex_le(a.drop_first(), b.drop_first())
    }
}

/// Any two sequences are ordered one way or the other.
pub proof fn lemma_lex_total(a: Seq<i64>, b: Seq<i64>)
    ensures
        lex_le(a, b) || lex_le(b, a),
    decreases a.len(),
{
    if a.len() > 0 && b.len() > 0 && a[0] == b[0] {
        lemma_lex_total(a.drop_first(), b.drop_first());
    }
}

/// Sequences ordered both ways are equal.
pub proof fn lemma_lex_antisymmetric(a: Seq<i64>, b: Seq<i64>)
    requires
        lex_le(a, b),
        lex_le(b, a),
    ensures
        a == b,
    decreases a.len(),
{
    if a.len() > 0 {
        lemma_lex_antisymmetric(a.drop_first(), b.drop_first());
        assert(a =~= seq![a[0]] + a.drop_first());
        assert(b =~= seq![b[0]] + b.drop_first());
    } else {
        assert(b.len() == 0);
        assert(a =~= b);
    }
}

/// The order is transitive.
pub proof fn lemma_lex_transitive(a: Seq<i64>, b: Seq<i64>, c: Seq<i64>)
    requires
        lex_le(a, b),
        lex_le(b, c),
    ensures
        lex_le(a, c),
    decreases a.len(),
{
    if a.len() > 0 && b.len() > 0 && c.len() > 0 && a[0] == b[0] && b[0] == c[0] {
        lemma_lex_transitive(a.drop_first(), b.drop_first(), c.drop_first());
    }
}

/// Every sequence comes before or equals itself.
proof fn lemma_lex_reflexive(a: Seq<i64>)
    ensures
        lex_le(a, a),
    decreases a.len(),
{
    if a.len() > 0 {
        lemma_lex_reflexive(a.drop_first());
    }
}

/// The parts of `path` between slashes, starting with the part `current` already read.
pub open spec fn split_parts(path: Seq<char>, current: Seq<char>) -> Seq<Seq<char>>
    decreases path.len(),
{
    if path.len() == 0 {
        seq![current]
    } else if path[0] == '/' {
        seq![current] + split_parts(path.drop_first(), Seq::empty())
    } else {
        split_parts(path.drop_first(), current.push(path[0]))
    }
}

/// The parts of `path` between slashes.
pub open spec fn path_parts(path: Seq<char>) -> Seq<Seq<char>> {
    split_parts(path, Seq::empty())
}

/// The code of a component that names a file or directory: its rank, then each character
/// raised by one, then 0. Codes of components compare as the components do.
pub open spec fn name_code(part: Seq<char>) -> Seq<i64> {
    seq![4i64] + part.map_values(|c: char| (c as u32 as int + 1) as i64) + seq![0i64]
}

/// The codes of the components that the parts make: empty parts and `.` are left out, `..`
/// is the parent component, any other part names a file or directory.
pub open spec fn parts_code(parts: Seq<Seq<char>>) -> Seq<i64>
    decreases parts.len(),
{
    if parts.len() == 0 {
        Seq::empty()
    } else {
        let part = parts.last();
        let earlier = parts_code(parts.drop_last());
        if part.len() == 0 || part == seq!['.'] {
            earlier
        } else if part == seq!['.', '.'] {
            earlier + seq![3i64, 0i64]
        } else {
            earlier + name_code(part)
        }
    }
}

/// The code of a path, which orders paths as their components do: the root directory comes
/// first, then a leading `.`, then `..`, then names; names compare by their characters.
pub open spec fn path_code(path: Seq<char>) -> Seq<i64> {
    let start = if path.len() > 0 && path[0] == '/' {
        seq![1i64, 0i64]
    } else if path_parts(path)[0] == seq!['.'] {
        seq![2i64, 0i64]
    } else {
        Seq::empty()
    };
    start + parts_code(path_parts(path))
}

/// The sorting key of a file: no file comes before every path.
pub open spec fn file_code(file: Option<String>) -> Seq<i64> {
    match file {
        Some(path) => seq![0i64] + path_code(path@),
        None => Seq::empty(),
    }
}

/// Whether the text `a` comes before `b` or equals it, comparing character by character by
/// their code points, a text before its extensions.
pub open spec fn text_le(a: Seq<char>, b: Seq<char>) -> bool
    decreases a.len(),
{
    if a.len() == 0 {
        true
    } else if b.len() == 0 {
        false
    } else if a[0] != b[0] {
        (a[0] as u32) < (b[0] as u32)
    } else {
        text_le(a.drop_first(), b.drop_first())
    }
}

/// Whether `name` can be the last component of a path: not empty, not `.` or `..`, and
/// without a slash.
pub open spec fn is_plain_name(name: Seq<char>) -> bool {
    &&& name.len() > 0
    &&& name != seq!['.']
    &&& name != seq!['.', '.']
    &&& !name.contains('/')
}

/// A common start does not change how two sequences compare.
pub proof fn lemma_lex_common_start(start: Seq<i64>, a: Seq<i64>, b: Seq<i64>)
    ensures
        lex_le(start + a, start + b) == lex_le(a, b),
    decreases start.len(),
{
    if start.len() == 0 {
        assert(start + a =~= a);
        assert(start + b =~= b);
    } else {
        assert((start + a).drop_first() =~= start.drop_first() + a);
        assert((start + b).drop_first() =~= start.drop_first() + b);
        assert((start + a)[0] == start[0]);
        assert((start + b)[0] == start[0]);
        lemma_lex_common_start(start.drop_first(), a, b);
    }
}

/// Characters with the same code point are the same, and a code point raised by one is a
/// positive `i64`.
proof fn lemma_code_points(x: char, y: char)
    ensures
        (x as u32 == y as u32) == (x == y),
        (x as u32 as int + 1) as i64 == x as u32 as int + 1,
        x as u32 as int + 1 > 0,
{
}

/// The characters of a name raised by one, then the 0 that ends it, compare as the
/// characters do.
proof fn lemma_raised_compare(a: Seq<char>, b: Seq<char>)
    ensures
        lex_le(
            a.map_values(|c: char| (c as u32 as int + 1) as i64) + seq![0i64],
            b.map_values(|c: char| (c as u32 as int + 1) as i64) + seq![0i64],
        ) == text_le(a, b),
    decreases a.len(),
{
    let ra = a.map_values(|c: char| (c as u32 as int + 1) as i64) + seq![0i64];
    let rb = b.map_values(|c: char| (c as u32 as int + 1) as i64) + seq![0i64];
    assert(ra.len() == a.len() + 1);
    assert(rb.len() == b.len() + 1);
    if a.len() > 0 {
        lemma_code_points(a[0], a[0]);
    }
    if b.len() > 0 {
        lemma_code_points(b[0], b[0]);
    }
    if a.len() > 0 && b.len() > 0 {
        lemma_code_points(a[0], b[0]);
    }
    if a.len() == 0 {
        assert(ra[0] == 0);
        if b.len() > 0 {
            assert(rb[0] == (b[0] as u32 as int + 1) as i64);
            assert(rb[0] > 0);
        } else {
            assert(rb[0] == 0);
            assert(ra.drop_first().len() == 0);
            assert(lex_le(ra.drop_first(), rb.drop_first()));
        }
    } else if b.len() == 0 {
        assert(rb[0] == 0);
        assert(ra[0] == (a[0] as u32 as int + 1) as i64);
        assert(ra[0] > 0);
    } else {
        assert(ra[0] == (a[0] as u32 as int + 1) as i64);
        assert(rb[0] == (b[0] as u32 as int + 1) as i64);
        if a[0] == b[0] {
            assert(ra.drop_first() =~= a.drop_first().map_values(
                |c: char| (c as u32 as int + 1) as i64,
            ) + seq![0i64]);
            assert(rb.drop_first() =~= b.drop_first().map_values(
                |c: char| (c as u32 as int + 1) as i64,
            ) + seq![0i64]);
            lemma_raised_compare(a.drop_first(), b.drop_first());
        } else {
            assert(a[0] as u32 != b[0] as u32);
            assert(ra[0] != rb[0]);
        }
    }
}

/// Names compare by their characters: the code of one comes before the code of the other
/// exactly when its text does.
pub proof fn lemma_names_compare_by_characters(a: Seq<char>, b: Seq<char>)
    ensures
        lex_le(name_code(a), name_code(b)) == text_le(a, b),
{
    let f = |c: char| (c as u32 as int + 1) as i64;
    assert(name_code(a) =~= seq![4i64] + (a.map_values(f) + seq![0i64]));
    assert(name_code(b) =~= seq![4i64] + (b.map_values(f) + seq![0i64]));
    lemma_lex_common_start(seq![4i64], a.map_values(f) + seq![0i64], b.map_values(f) + seq![0i64]);
    lemma_raised_compare(a, b);
}

/// Different names have different codes.
pub proof fn lemma_name_code_injective(a: Seq<char>, b: Seq<char>)
    requires
        name_code(a) == name_code(b),
    ensures
        a == b,
{
    assert(name_code(a).len() == a.len() + 2);
    assert(name_code(b).len() == b.len() + 2);
    assert forall|i: int| 0 <= i < a.len() implies a[i] == b[i] by {
        assert(name_code(a)[i + 1] == a.map_values(|c: char| (c as u32 as int + 1) as i64)[i]);
        assert(name_code(b)[i + 1] == b.map_values(|c: char| (c as u32 as int + 1) as i64)[i]);
        lemma_code_points(a[i], b[i]);
        lemma_code_points(b[i], a[i]);
    }
    assert(a =~= b);
}

/// Splitting text without a slash gives one part: what was read, then the text.
proof fn lemma_split_without_slash(text: Seq<char>, current: Seq<char>)
    requires
        !text.contains('/'),
    ensures
        split_parts(text, current) == seq![current + text],
    decreases text.len(),
{
    if text.len() == 0 {
        assert(current + text =~= current);
    } else {
        assert(text[0] != '/') by {
            if text[0] == '/' {
                assert(text.contains('/'));
            }
        }
        assert(!text.drop_first().contains('/')) by {
            if text.drop_first().contains('/') {
                let i = choose|i: int| 0 <= i < text.drop_first().len() && text.drop_first()[i]
                    == '/';
                assert(text[i + 1] == '/');
            }
        }
        lemma_split_without_slash(text.drop_first(), current.push(text[0]));
        assert(current.push(text[0]) + text.drop_first() =~= current + text);
    }
}

/// A slash and a plain name after a path add that name as the last part.
proof fn lemma_split_then_name(path: Seq<char>, name: Seq<char>, current: Seq<char>)
    requires
        !name.contains('/'),
    ensures
        split_parts(path + seq!['/'] + name, current) == split_parts(path, current).push(name),
    decreases path.len(),
{
    let whole = path + seq!['/'] + name;
    if path.len() == 0 {
        assert(whole =~= seq!['/'] + name);
        assert(whole[0] == '/');
        assert(whole.drop_first() =~= name);
        lemma_split_without_slash(name, Seq::empty());
        assert(Seq::<char>::empty() + name =~= name);
        assert(seq![current] + seq![name] =~= seq![current].push(name));
    } else {
        assert(whole[0] == path[0]);
        assert(whole.drop_first() =~= path.drop_first() + seq!['/'] + name);
        if path[0] == '/' {
            lemma_split_then_name(path.drop_first(), name, Seq::empty());
            assert(seq![current] + split_parts(path.drop_first(), Seq::empty()).push(name)
                =~= (seq![current] + split_parts(path.drop_first(), Seq::empty())).push(name));
        } else {
            lemma_split_then_name(path.drop_first(), name, current.push(path[0]));
        }
    }
}

/// A plain name after a non-empty path adds the name's code to the path's code.
pub proof fn lemma_path_then_name(path: Seq<char>, name: Seq<char>)
    requires
        path.len() > 0,
        is_plain_name(name),
    ensures
        path_code(path + seq!['/'] + name) == path_code(path) + name_code(name),
{
    let whole = path + seq!['/'] + name;
    lemma_split_then_name(path, name, Seq::empty());
    lemma_split_parts_nonempty(path, Seq::empty());
    let parts = path_parts(path);
    assert(path_parts(whole) == parts.push(name));
    assert(path_parts(whole)[0] == parts[0]);
    assert(whole[0] == path[0]);
    assert(parts.push(name).drop_last() =~= parts);
    assert(parts.push(name).last() == name);
    assert(parts_code(parts.push(name)) == parts_code(parts) + name_code(name));
    let start = if path[0] == '/' {
        seq![1i64, 0i64]
    } else if parts[0] == seq!['.'] {
        seq![2i64, 0i64]
    } else {
        Seq::empty()
    };
    assert(path_code(whole) == start + (parts_code(parts) + name_code(name)));
    assert(start + (parts_code(parts) + name_code(name)) =~= start + parts_code(parts)
        + name_code(name));
}

/// Files in one directory are ordered by their names, compared character by character, and
/// two of them have the same key only when their names are the same.
pub proof fn lemma_files_in_one_directory(
    first: String,
    second: String,
    directory: Seq<char>,
    first_name: Seq<char>,
    second_name: Seq<char>,
)
    requires
        directory.len() > 0,
        is_plain_name(first_name),
        is_plain_name(second_name),
        first@ == directory + seq!['/'] + first_name,
        second@ == directory + seq!['/'] + second_name,
    ensures
        lex_le(file_code(Some(first)), file_code(Some(second))) == text_le(
            first_name,
            second_name,
        ),
        file_code(Some(first)) == file_code(Some(second)) <==> first_name == second_name,
{
    lemma_path_then_name(directory, first_name);
    lemma_path_then_name(directory, second_name);
    let common = seq![0i64] + path_code(directory);
    assert(file_code(Some(first)) =~= common + name_code(first_name));
    assert(file_code(Some(second)) =~= common + name_code(second_name));
    lemma_lex_common_start(common, name_code(first_name), name_code(second_name));
    lemma_names_compare_by_characters(first_name, second_name);
    if file_code(Some(first)) == file_code(Some(second)) {
        assert(name_code(first_name) =~= file_code(Some(first)).skip(common.len() as int));
        assert(name_code(second_name) =~= file_code(Some(second)).skip(common.len() as int));
        lemma_name_code_injective(first_name, second_name);
    }
}

/// Whether `a` and `b` are in order, comparing element by element.
fn lex_le_exec(a: &Vec<i64>, b: &Vec<i64>) -> (le: bool)
    ensures
        le == lex_le(a@, b@),
{
    let mut i: usize = 0;
    assert(a@.skip(0) =~= a@);
    assert(b@.skip(0) =~= b@);
    while i < a.len() && i < b.len()
        invariant
            i <= a@.len(),
            i <= b@.len(),
            lex_le(a@, b@) == lex_le(a@.skip(i as int), b@.skip(i as int)),
        decreases a.len() - i,
    {
        assert(a@.skip(i as int)[0] == a@[i as int]);
        assert(b@.skip(i as int)[0] == b@[i as int]);
        if a[i] != b[i] {
            return a[i] < b[i];
        }
        assert(a@.skip(i as int).drop_first() =~= a@.skip(i + 1));
        assert(b@.skip(i as int).drop_first() =~= b@.skip(i + 1));
        i = i + 1;
    }
    i == a.len()
}

/// The parts of the characters `chars` between slashes.
fn parts_of(chars: &Vec<char>) -> (parts: Vec<Vec<char>>)
    ensures
        parts@.map_values(|p: Vec<char>| p@) == path_parts(chars@),
{
    let mut parts: Vec<Vec<char>> = Vec::new();
    let mut current: Vec<char> = Vec::new();
    let mut i: usize = 0;
    assert(chars@.skip(0) =~= chars@);
    while i < chars.len()
        invariant
            i <= chars@.len(),
            parts@.map_values(|p: Vec<char>| p@) + split_parts(chars@.skip(i as int), current@)
                == path_parts(chars@),
        decreases chars.len() - i,
    {
        let ghost rest = chars@.skip(i as int);
        let ghost done = parts@.map_values(|p: Vec<char>| p@);
        assert(rest[0] == chars@[i as int]);
        assert(rest.drop_first() =~= chars@.skip(i + 1));
        if chars[i] == '/' {
            let ghost finished = current@;
            parts.push(current);
            current = Vec::new();
            assert(parts@.map_values(|p: Vec<char>| p@) =~= done.push(finished));
            assert(done + (seq![finished] + split_parts(chars@.skip(i + 1), Seq::empty()))
                =~= done.push(finished) + split_parts(chars@.skip(i + 1), current@));
        } else {
            current.push(chars[i]);
        }
        i = i + 1;
    }
    let ghost done = parts@.map_values(|p: Vec<char>| p@);
    let ghost last = current@;
    parts.push(current);
    assert(parts@.map_values(|p: Vec<char>| p@) =~= done.push(last));
    assert(chars@.skip(i as int) =~= Seq::<char>::empty());
    assert(done + seq![last] =~= done.push(last));
    parts
}

/// Whether `part` is the text `text`.
fn part_is(part: &Vec<char>, text: &Vec<char>) -> (same: bool)
    ensures
        same == (part@ == text@),
{
    if part.len() != text.len() {
        return false;
    }
    let mut i: usize = 0;
    while i < part.len()
        invariant
            part@.len() == text@.len(),
            i <= part@.len(),
            forall|k: int| 0 <= k < i ==> part@[k] == text@[k],
        decreases part.len() - i,
    {
        if part[i] != text[i] {
            return false;
        }
        i = i + 1;
    }
    assert(part@ =~= text@);
    true
}

/// The sorting key of a file.
#[verifier::spinoff_prover]
#[verifier::rlimit(30)]
fn file_code_exec(file: &Option<String>) -> (code: Vec<i64>)
    ensures
        code@ == file_code(*file),
{
    let path = match file {
        Some(path) => path,
        None => return Vec::new(),
    };
    let chars = chars_of(path.as_str());
    let parts = parts_of(&chars);
    let ghost texts = parts@.map_values(|p: Vec<char>| p@);
    let mut dot: Vec<char> = Vec::new();
    dot.push('.');
    let mut dot_dot: Vec<char> = Vec::new();
    dot_dot.push('.');
    dot_dot.push('.');
    assert(dot@ =~= seq!['.']);
    assert(dot_dot@ =~= seq!['.', '.']);
    let mut code: Vec<i64> = Vec::new();
    code.push(0);
    assert(parts@.len() > 0) by {
        lemma_split_parts_nonempty(chars@, Seq::empty());
    }
    assert(texts[0] == parts@[0]@);
    if chars.len() > 0 && chars[0] == '/' {
        code.push(1);
        code.push(0);
    } else if part_is(&parts[0], &dot) {
        code.push(2);
        code.push(0);
    }
    let ghost start = code@.drop_first();
    assert(code@ =~= seq![0i64] + start + parts_code(texts.take(0)));
    let mut i: usize = 0;
    while i < parts.len()
        invariant
            i <= parts@.len(),
            texts == parts@.map_values(|p: Vec<char>| p@),
            dot@ == seq!['.'],
            dot_dot@ == seq!['.', '.'],
            code@ == seq![0i64] + start + parts_code(texts.take(i as int)),
        decreases parts.len() - i,
    {
        let part = &parts[i];
        assert(texts.take(i + 1).drop_last() =~= texts.take(i as int));
        assert(texts.take(i + 1).last() == part@);
        if part.len() == 0 || part_is(part, &dot) {
        } else if part_is(part, &dot_dot) {
            code.push(3);
            code.push(0);
        } else {
            let ghost before = code@;
            code.push(4);
            let mut k: usize = 0;
            while k < part.len()
                invariant
                    k <= part@.len(),
                    code@ == before + seq![4i64] + part@.take(k as int).map_values(
                        |c: char| (c as u32 as int + 1) as i64,
                    ),
                decreases part.len() - k,
            {
                let c = part[k];
                let n = c as u32;
                code.push(n as i64 + 1);
                
                assert(part@.take(k + 1).map_values(|c: char| (c as u32 as int + 1) as i64)
                    =~= part@.take(k as int).map_values(|c: char| (c as u32 as int + 1) as i64).push(
                    (c as u32 as int + 1) as i64,
                ));
                k = k + 1;
            }
            code.push(0);
            assert(part@.take(part@.len() as int) =~= part@);
            assert(code@ =~= before + name_code(part@));
        }
        i = i + 1;
    }
    assert(texts.take(parts@.len() as int) =~= texts);
    assert(code@ =~= seq![0i64] + path_code(path@));
    code
}

/// Splitting always gives at least one part.
proof fn lemma_split_parts_nonempty(path: Seq<char>, current: Seq<char>)
    ensures
        split_parts(path, current).len() > 0,
    decreases path.len(),
{
    if path.len() > 0 && path[0] != '/' {
        lemma_split_parts_nonempty(path.drop_first(), current.push(path[0]));
    }
}

/// Whether `sorted` holds the files of `files` at the places `origin` gives, each once, with
/// files whose paths compare equal in their first order.
pub open spec fn stable_arrangement(
    files: Seq<ExtractedFile>,
    sorted: Seq<ExtractedFile>,
    origin: Seq<int>,
) -> bool {
    &&& origin.len() == sorted.len()
    &&& forall|k: int|
        0 <= k < sorted.len() ==> 0 <= #[trigger] origin[k] < files.len() && sorted[k]
            == files[origin[k]]
    &&& forall|k: int, l: int| 0 <= k < l < sorted.len() ==> origin[k] != origin[l]
    &&& forall|k: int, l: int|
        0 <= k < l < sorted.len() && file_code(sorted[k].file) == file_code(sorted[l].file)
            ==> origin[k] < origin[l]
}

/// Sorts extracted files by their paths, compared component by component; no file comes
/// first. Files whose paths compare equal keep their order.
pub fn sort_files(files: Vec<ExtractedFile>) -> (sorted: Vec<ExtractedFile>)
    ensures
        sorted@.len() == files@.len(),
        forall|i: int, j: int|
            0 <= i < j < sorted@.len() ==> lex_le(
                file_code(sorted@[i].file),
                file_code(sorted@[j].file),
            ),
        exists|origin: Seq<int>| #[trigger] stable_arrangement(files@, sorted@, origin),
{
    let ghost original = files@;
    let mut rest = files;
    let mut sorted: Vec<ExtractedFile> = Vec::new();
    let mut codes: Vec<Vec<i64>> = Vec::new();
    let ghost mut origin: Seq<int> = Seq::empty();
    while rest.len() > 0
        invariant
            rest@ == original.take(rest@.len() as int),
            rest@.len() <= original.len(),
            sorted@.len() + rest@.len() == original.len(),
            codes@.len() == sorted@.len(),
            origin.len() == sorted@.len(),
            forall|k: int|
                0 <= k < sorted@.len() ==> (#[trigger] codes@[k])@ == file_code(sorted@[k].file),
            forall|k: int|
                0 <= k < sorted@.len() ==> rest@.len() <= #[trigger] origin[k] < original.len()
                    && sorted@[k] == original[origin[k]],
            forall|k: int, l: int| 0 <= k < l < sorted@.len() ==> origin[k] != origin[l],
            forall|k: int, l: int|
                0 <= k < l < sorted@.len() ==> lex_le(codes@[k]@, codes@[l]@),
            forall|k: int, l: int|
                0 <= k < l < sorted@.len() && codes@[k]@ == codes@[l]@ ==> origin[k] < origin[l],
        decreases rest@.len(),
    {
        let ghost at = rest@.len() - 1;
        let file = rest.pop().unwrap();
        assert(file == original[at]);
        assert(rest@ =~= original.take(rest@.len() as int));
        let code = file_code_exec(&file.file);
        let mut p: usize = 0;
        while p < sorted.len() && !lex_le_exec(&code, &codes[p])
            invariant
                p <= codes@.len(),
                codes@.len() == sorted@.len(),
                forall|k: int| 0 <= k < p ==> !lex_le(code@, #[trigger] codes@[k]@),
            decreases sorted.len() - p,
        {
            p = p + 1;
        }
        let ghost old_codes = codes@;
        let ghost old_sorted = sorted@;
        let ghost old_origin = origin;
        sorted.insert(p, file);
        codes.insert(p, code);
        proof {
            origin = old_origin.insert(p as int, at);
            let views = old_codes.map_values(|c: Vec<i64>| c@);
            assert forall|a: int, b: int| 0 <= a < b < views.len() implies lex_le(
                views[a],
                views[b],
            ) by {
                assert(views[a] == old_codes[a]@ && views[b] == old_codes[b]@);
            }
            assert forall|a: int| 0 <= a < p implies !lex_le(code@, #[trigger] views[a]) by {
                assert(views[a] == old_codes[a]@);
            }
            if p < old_codes.len() {
                assert(views[p as int] == old_codes[p as int]@);
            }
            assert forall|k: int| 0 <= k < sorted@.len() implies #[trigger] codes@[k]@
                == views.insert(p as int, code@)[k] by {
                if k < p {
                    assert(codes@[k] == old_codes[k]);
                } else if k > p {
                    assert(codes@[k] == old_codes[k - 1]);
                }
            }
            assert forall|k: int, l: int| 0 <= k < l < sorted@.len() implies lex_le(
                codes@[k]@,
                codes@[l]@,
            ) by {
                lemma_insert_keeps_order(views, code@, p as int, k, l);
                assert(codes@[k]@ == views.insert(p as int, code@)[k]);
                assert(codes@[l]@ == views.insert(p as int, code@)[l]);
            }
            assert forall|k: int, l: int|
                0 <= k < l < sorted@.len() && codes@[k]@ == codes@[l]@ implies origin[k]
                < origin[l] by {
                if k == p && l > p {
                    assert(origin[l] == old_origin[l - 1]);
                } else if l == p && k < p {
                    assert(codes@[k] == old_codes[k]);
                    lemma_lex_reflexive(code@);
                }
            }
            assert forall|k: int, l: int| 0 <= k < l < sorted@.len() implies origin[k]
                != origin[l] by {
                if k == p || l == p {
                } else if k < p && l < p {
                } else if k < p {
                    assert(origin[l] == old_origin[l - 1]);
                } else {
                    assert(origin[k] == old_origin[k - 1]);
                    assert(origin[l] == old_origin[l - 1]);
                }
            }
            assert forall|k: int|
                0 <= k < sorted@.len() implies (#[trigger] codes@[k])@ == file_code(
                sorted@[k].file,
            ) by {
                if k < p {
                    assert(codes@[k] == old_codes[k] && sorted@[k] == old_sorted[k]);
                } else if k > p {
                    assert(codes@[k] == old_codes[k - 1] && sorted@[k] == old_sorted[k - 1]);
                }
            }
            assert forall|k: int| 0 <= k < sorted@.len() implies rest@.len() <= #[trigger] origin[k]
                < original.len() && sorted@[k] == original[origin[k]] by {
                if k < p {
                    assert(sorted@[k] == old_sorted[k]);
                } else if k > p {
                    assert(sorted@[k] == old_sorted[k - 1]);
                }
            }
        }
    }
    assert forall|k: int, l: int| 0 <= k < l < sorted@.len() implies lex_le(
        file_code(sorted@[k].file),
        file_code(sorted@[l].file),
    ) by {
        assert(codes@[k]@ == file_code(sorted@[k].file));
        assert(codes@[l]@ == file_code(sorted@[l].file));
    }
    assert(stable_arrangement(original, sorted@, origin)) by {
        assert forall|k: int, l: int|
            0 <= k < l < sorted@.len() && file_code(sorted@[k].file) == file_code(
                sorted@[l].file,
            ) implies origin[k] < origin[l] by {
            assert(codes@[k]@ == file_code(sorted@[k].file));
            assert(codes@[l]@ == file_code(sorted@[l].file));
        }
    }
    sorted
}

/// Inserting `code` before the first code it comes before or equals keeps the codes in
/// order.
proof fn lemma_insert_keeps_order(codes: Seq<Seq<i64>>, code: Seq<i64>, p: int, k: int, l: int)
    requires
        0 <= p <= codes.len(),
        forall|a: int, b: int| 0 <= a < b < codes.len() ==> lex_le(codes[a], codes[b]),
        forall|a: int| 0 <= a < p ==> !lex_le(code, #[trigger] codes[a]),
        p < codes.len() ==> lex_le(code, codes[p]),
        0 <= k < l < codes.len() + 1,
    ensures
        lex_le(codes.insert(p, code)[k], codes.insert(p, code)[l]),
{
    let new_codes = codes.insert(p, code);
    if k == p {
        assert(new_codes[l] == codes[l - 1]);
        if l - 1 > p {
            lemma_lex_transitive(code, codes[p], codes[l - 1]);
        }
    } else if l == p {
        assert(new_codes[k] == codes[k]);
        lemma_lex_total(code, codes[k]);
    } else if k < p && l < p {
        assert(new_codes[l] == codes[l]);
        assert(new_codes[k] == codes[k]);
    } else if k < p {
        assert(new_codes[l] == codes[l - 1]);
        assert(new_codes[k] == codes[k]);
    } else {
        assert(new_codes[l] == codes[l - 1]);
        assert(new_codes[k] == codes[k - 1]);
    }
}

} // verus!
