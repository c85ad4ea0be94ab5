//! The lines of a mesh file. A line is words between white space; its first
//! word says what the others are: the coordinates of a vertex, of a normal
//! or of a texture point, or the corners of a face. Only the ASCII white
//! space separates words: blank, tab, line feed, vertical tab, form feed and
//! carriage return.
//!
//! A face is three corners. Its corners are either three plain one-based
//! vertex indices, `f 1 2 3`, or three triples `vertex/texture/normal` of
//! one-based indices into the lists read so far, `f 1/1/1 2/2/2 3/3/3`. A
//! face of plain indices has vertices only: its lists of texture and normal
//! indices are empty. Where one corner of a face has a `/`, every corner has
//! to be a triple.

use vstd::prelude::*;

verus! {

/// Why a mesh could not be read.
#[derive(Debug)]
pub enum ModelError {
    /// The file could not be read; the text says why.
    Io(String),
    /// A line of the file is not what the format asks for; the text says
    /// why.
    Parse(String),
}

/// What can be wrong with a face.
#[derive(Clone, Copy, Debug, PartialEq, Eq, Structural)]
pub enum FaceFault {
    /// A corner has fewer than three indices.
    MissingIndex,
    /// An index is empty.
    EmptyNumber,
    /// An index holds something else than digits after an optional `+`.
    InvalidDigit,
    /// An index is too large a number for the machine.
    NumberTooLarge,
    /// An index is zero or beyond the end of its list.
    IndexTooLarge,
    /// The face has fewer or more than three corners.
    NotThreeCorners,
}

impl FaceFault {
    /// The text of the fault.
    pub open spec fn spec_message(self) -> Seq<char> {
        match self {
            FaceFault::MissingIndex => "missing idx"@,
            FaceFault::EmptyNumber => "cannot parse integer from empty string"@,
            FaceFault::InvalidDigit => "invalid digit found in string"@,
            FaceFault::NumberTooLarge => "number too large to fit in target type"@,
            FaceFault::IndexTooLarge => "face idx is too large"@,
            FaceFault::NotThreeCorners => "face must have exactly 3 vertices"@,
        }
    }

    /// The text of the fault.
    pub fn message(&self) -> (s: &'static str)
        ensures
            s@ == self.spec_message(),
    {
        match *self {
            FaceFault::MissingIndex => "missing idx",
            FaceFault::EmptyNumber => "cannot parse integer from empty string",
            FaceFault::InvalidDigit => "invalid digit found in string",
            FaceFault::NumberTooLarge => "number too large to fit in target type",
            FaceFault::IndexTooLarge => "face idx is too large",
            FaceFault::NotThreeCorners => "face must have exactly 3 vertices",
        }
    }

    /// The error that reports the fault.
    pub fn into_error(self) -> (e: ModelError)
        ensures
            e.reports(self),
    {
        ModelError::Parse(self.message().to_owned())
    }
}

impl ModelError {
    /// The error is a parse error with the text of `fault`.
    pub open spec fn reports(self, fault: FaceFault) -> bool {
        self matches ModelError::Parse(text) && text@ == fault.spec_message()
    }

    /// The text of the error.
    pub fn message(&self) -> (s: &str)
        ensures
            s@ == (match *self {
                ModelError::Io(text) => text@,
                ModelError::Parse(text) => text@,
            }),
    {
        match self {
            ModelError::Io(text) => text.as_str(),
            ModelError::Parse(text) => text.as_str(),
        }
    }
}

/// A face: for each of its three corners the zero-based index of its
/// vertex and, unless the face was given by plain vertex indices, of its
/// texture coordinate and of its normal. The lists of texture and normal
/// indices have either three entries or none.
#[derive(Debug)]
pub struct Face {
    pub vert: Vec<usize>,
    pub texture: Vec<usize>,
    pub normal: Vec<usize>,
}

/// The three index lists of some corners.
pub struct Corners {
    pub vert: Seq<usize>,
    pub texture: Seq<usize>,
    pub normal: Seq<usize>,
}

/// The number that the text from byte `i` on continues, when the digits so
/// far make `acc`: digit after digit, and a fault at the first byte that is
/// no digit or takes the number beyond the machine's largest.
pub open spec fn number_from(text: Seq<u8>, i: int, acc: int) -> Result<int, FaceFault>
    decreases text.len() - i,
{
    if i < 0 || i >= text.len() {
        Ok(acc)
    } else if !(48 <= text[i] <= 57) {
        Err(FaceFault::InvalidDigit)
    } else if acc * 10 + (text[i] - 48) > usize::MAX {
        Err(FaceFault::NumberTooLarge)
    } else {
        number_from(text, i + 1, acc * 10 + (text[i] - 48))
    }
}

/// The number that `text` writes in decimal digits, with an optional `+`
/// in front.
pub open spec fn number(text: Seq<u8>) -> Result<int, FaceFault> {
    if text.len() == 0 {
        Err(FaceFault::EmptyNumber)
    } else if text[0] == 43 {
        if text.len() == 1 {
            Err(FaceFault::InvalidDigit)
        } else {
            number_from(text, 1, 0)
        }
    } else {
        number_from(text, 0, 0)
    }
}

/// The zero-based index that a field of a corner names in a list of `len`
/// entries. The field holds the index counted from one.
pub open spec fn index(field: Option<Seq<u8>>, len: int) -> Result<int, FaceFault> {
    match field {
        None => Err(FaceFault::MissingIndex),
        Some(text) => match number(text) {
            Err(fault) => Err(fault),
            Ok(v) => if v == 0 || v - 1 >= len {
                Err(FaceFault::IndexTooLarge)
            } else {
                Ok(v - 1)
            },
        },
    }
}

/// Where the field that starts at byte `from` of `word` ends: at the next
/// `/` or at the end of the word.
pub open spec fn field_end(word: Seq<u8>, from: int) -> int
    decreases word.len() - from,
{
    if from < 0 || from >= word.len() || word[from] == 47 {
        from
    } else {
        field_end(word, from + 1)
    }
}

/// Where field `k` of `word` starts, if the word has that many fields.
/// Fields are separated by `/`.
pub open spec fn field_start(word: Seq<u8>, k: int) -> Option<int>
    decreases k,
{
    if k <= 0 {
        Some(0)
    } else {
        match field_start(word, k - 1) {
            None => None,
            Some(from) => if field_end(word, from) >= word.len() {
                None
            } else {
                Some(field_end(word, from) + 1)
            },
        }
    }
}

/// Field `k` of `word`, if the word has that many fields.
pub open spec fn field(word: Seq<u8>, k: int) -> Option<Seq<u8>> {
    match field_start(word, k) {
        None => None,
        Some(from) => Some(word.subrange(from, field_end(word, from))),
    }
}

/// The word is a plain index: it has no `/`.
pub open spec fn is_plain(word: Seq<u8>) -> bool {
    field_end(word, 0) >= word.len()
}

/// Every word is a plain index.
pub open spec fn all_plain(words: Seq<Seq<u8>>) -> bool {
    forall|i: int| 0 <= i < words.len() ==> is_plain(#[trigger] words[i])
}

/// The corners that the first `count` words name, or the first fault in
/// them. In a face of plain indices each word is a vertex index. Else each
/// word is a triple, of which the vertex index is looked at first, then the
/// texture index, then the normal index.
pub open spec fn corners(
    words: Seq<Seq<u8>>,
    count: int,
    plain: bool,
    vert_len: int,
    texture_len: int,
    normal_len: int,
) -> Result<Corners, FaceFault>
    decreases count,
{
    if count <= 0 {
        Ok(Corners { vert: Seq::empty(), texture: Seq::empty(), normal: Seq::empty() })
    } else {
        match corners(words, count - 1, plain, vert_len, texture_len, normal_len) {
            Err(fault) => Err(fault),
            Ok(before) => {
                let word = words[count - 1];
                match index(field(word, 0), vert_len) {
                    Err(fault) => Err(fault),
                    Ok(v) => if plain {
                        Ok(Corners { vert: before.vert.push(v as usize), ..before })
                    } else {
                        match index(field(word, 1), texture_len) {
                            Err(fault) => Err(fault),
                            Ok(t) => match index(field(word, 2), normal_len) {
                                Err(fault) => Err(fault),
                                Ok(n) => Ok(
                                    Corners {
                                        vert: before.vert.push(v as usize),
                                        texture: before.texture.push(t as usize),
                                        normal: before.normal.push(n as usize),
                                    },
                                ),
                            },
                        }
                    },
                }
            },
        }
    }
}

/// The face that the words of a face line name, or the first fault in
/// them: three plain vertex indices, or three triples. A face with other
/// than three corners is a fault, found after all its corners were looked
/// at.
pub open spec fn face(
    words: Seq<Seq<u8>>,
    vert_len: int,
    texture_len: int,
    normal_len: int,
) -> Result<Corners, FaceFault> {
    match corners(
        words,
        words.len() as int,
        all_plain(words),
        vert_len,
        texture_len,
        normal_len,
    ) {
        Err(fault) => Err(fault),
        Ok(all) => if words.len() != 3 {
            Err(FaceFault::NotThreeCorners)
        } else {
            Ok(all)
        },
    }
}

/// What a line of a mesh file holds, as its first word says.
#[derive(Clone, Copy, Debug, PartialEq, Eq, Structural)]
pub enum Directive {
    /// `v`: the position of a vertex.
    Vertex,
    /// `vn`: a normal.
    Normal,
    /// `vt`: a texture coordinate.
    Texture,
    /// `f`: a face.
    Face,
    /// Anything else; such a line is passed over.
    Other,
}

/// The byte is ASCII white space: a blank, a tab, a line feed, a vertical
/// tab, a form feed or a carriage return. No other byte separates words, so
/// white space beyond ASCII, such as a no-break space, is part of a word.
pub open spec fn is_space(c: u8) -> bool {
    c == 32 || 9 <= c <= 13
}

/// The first byte from `from` on that is no white space, or the end of the
/// line.
pub open spec fn word_start(line: Seq<u8>, from: int) -> int
    decreases line.len() - from,
{
    if from < 0 || from >= line.len() || !is_space(line[from]) {
        from
    } else {
        word_start(line, from + 1)
    }
}

/// The first byte from `from` on that is white space, or the end of the
/// line.
pub open spec fn word_end(line: Seq<u8>, from: int) -> int
    decreases line.len() - from,
{
    if from < 0 || from >= line.len() || is_space(line[from]) {
        from
    } else {
        word_end(line, from + 1)
    }
}

/// The words of the line from byte `from` on: the runs of bytes between
/// white space.
pub open spec fn words_from(line: Seq<u8>, from: int) -> Seq<Seq<u8>>
    decreases line.len() - from,
    via words_from_decreases
{
    let start = word_start(line, from);
    if from < 0 || start >= line.len() {
        Seq::empty()
    } else {
        seq![line.subrange(start, word_end(line, start))] + words_from(
            line,
            word_end(line, start),
        )
    }
}

#[via_fn]
proof fn words_from_decreases(line: Seq<u8>, from: int) {
    if from >= 0 {
        lemma_word_bounds(line, from);
        let start = word_start(line, from);
        if start < line.len() {
            lemma_word_bounds(line, start);
        }
    }
}

/// A word starts at or after the byte from which it is looked for, on a
/// byte that is no white space; and it ends after its start, at white space
/// or at the end of the line.
pub proof fn lemma_word_bounds(line: Seq<u8>, from: int)
    requires
        0 <= from,
    ensures
        from <= word_start(line, from),
        from <= word_end(line, from),
        from < line.len() ==> word_start(line, from) <= line.len() && word_end(line, from)
            <= line.len(),
        from < line.len() && !is_space(line[from]) ==> from < word_end(line, from),
        word_start(line, from) < line.len() ==> !is_space(line[word_start(line, from)]),
    decreases line.len() - from,
{
    if from < line.len() {
        lemma_word_bounds(line, from + 1);
    }
}

/// The words of a line: the runs of bytes between ASCII white space.
pub open spec fn words(line: Seq<u8>) -> Seq<Seq<u8>> {
    words_from(line, 0)
}

/// What the first word of a line says that the line holds.
pub open spec fn directive_of(word: Seq<u8>) -> Directive {
    if word == seq![118u8] {
        Directive::Vertex
    } else if word == seq![118u8, 110u8] {
        Directive::Normal
    } else if word == seq![118u8, 116u8] {
        Directive::Texture
    } else if word == seq![102u8] {
        Directive::Face
    } else {
        Directive::Other
    }
}

/// Tells from the first word of a line what the line holds: `v`, `vn`, `vt`
/// and `f` are known, every other word is passed over.
pub fn directive(word: &[u8]) -> (d: Directive)
    ensures
        d == directive_of(word@),
{
    let n = word.len();
    if n == 1 && word[0] == 118 {
        assert(word@ =~= seq![118u8]);
        Directive::Vertex
    } else if n == 2 && word[0] == 118 && word[1] == 110 {
        assert(word@ =~= seq![118u8, 110u8]);
        Directive::Normal
    } else if n == 2 && word[0] == 118 && word[1] == 116 {
        assert(word@ =~= seq![118u8, 116u8]);
        Directive::Texture
    } else if n == 1 && word[0] == 102 {
        assert(word@ =~= seq![102u8]);
        Directive::Face
    } else {
        assert(seq![118u8].len() == 1 && seq![118u8][0] == 118);
        assert(seq![102u8].len() == 1 && seq![102u8][0] == 102);
        assert(seq![118u8, 110u8].len() == 2 && seq![118u8, 110u8][0] == 118 && seq![
            118u8,
            110u8,
        ][1] == 110);
        assert(seq![118u8, 116u8].len() == 2 && seq![118u8, 116u8][0] == 118 && seq![
            118u8,
            116u8,
        ][1] == 116);
        Directive::Other
    }
}

/// Whether the byte is white space.
fn space(c: u8) -> (r: bool)
    ensures
        r == is_space(c),
{
    c == 32 || (9 <= c && c <= 13)
}

/// Splits a line into its words, at ASCII white space only.
pub fn split_words(line: &[u8]) -> (out: Vec<Vec<u8>>)
    ensures
        out@.map_values(|w: Vec<u8>| w@) == words(line@),
{
    let n = line.len();
    let mut out: Vec<Vec<u8>> = Vec::new();
    let mut i: usize = 0;
    proof {
        assert(out@.map_values(|w: Vec<u8>| w@) + words_from(line@, 0) =~= words(line@));
    }
    loop
        invariant_except_break
            i <= n,
            n == line@.len(),
            out@.map_values(|w: Vec<u8>| w@) + words_from(line@, i as int) == words(line@),
        ensures
            out@.map_values(|w: Vec<u8>| w@) == words(line@),
        decreases n - i,
    {
        let ghost from = i as int;
        while i < n && space(line[i])
            invariant
                from <= i <= n,
                n == line@.len(),
                word_start(line@, from) == word_start(line@, i as int),
            decreases n - i,
        {
            i += 1;
        }
        if i >= n {
            proof {
                assert(words_from(line@, from) =~= Seq::<Seq<u8>>::empty());
                assert(out@.map_values(|w: Vec<u8>| w@) + Seq::<Seq<u8>>::empty()
                    =~= out@.map_values(|w: Vec<u8>| w@));
            }
            break ;
        }
        let start = i;
        while i < n && !space(line[i])
            invariant
                start <= i <= n,
                start < n,
                !is_space(line@[start as int]),
                n == line@.len(),
                word_end(line@, start as int) == word_end(line@, i as int),
            decreases n - i,
        {
            i += 1;
        }
        let ghost before = out@.map_values(|w: Vec<u8>| w@);
        let word = vstd::slice::slice_to_vec(vstd::slice::slice_subrange(line, start, i));
        out.push(word);
        proof {
            let rest = words_from(line@, i as int);
            assert(words_from(line@, from) == seq![line@.subrange(start as int, i as int)] + rest);
            assert(out@.map_values(|w: Vec<u8>| w@) =~= before.push(
                line@.subrange(start as int, i as int),
            ));
            assert(before.push(line@.subrange(start as int, i as int)) + rest =~= before + (seq![
                line@.subrange(start as int, i as int),
            ] + rest));
        }
    }
    out
}

/// Reads the decimal number that `text` writes.
pub fn read_number(text: &[u8]) -> (r: Result<usize, FaceFault>)
    ensures
        match number(text@) {
            Ok(v) => r matches Ok(found) && found == v,
            Err(fault) => r matches Err(e) && e == fault,
        },
{
    let n = text.len();
    if n == 0 {
        return Err(FaceFault::EmptyNumber);
    }
    let mut i: usize = if text[0] == 43 {
        1
    } else {
        0
    };
    if i == n {
        return Err(FaceFault::InvalidDigit);
    }
    let mut acc: usize = 0;
    while i < n
        invariant
            i <= n,
            n == text@.len(),
            number(text@) == number_from(text@, i as int, acc as int),
        decreases n - i,
    {
        let c = text[i];
        if c < 48 || c > 57 {
            return Err(FaceFault::InvalidDigit);
        }
        let digit: usize = (c - 48) as usize;
        if acc > (usize::MAX - digit) / 10 {
            assert(acc * 10 + digit > usize::MAX);
            return Err(FaceFault::NumberTooLarge);
        }
        acc = acc * 10 + digit;
        i += 1;
    }
    Ok(acc)
}

/// Reads the index that a field of a corner names in a list of `len`
/// entries, and turns it from one-based to zero-based.
pub fn read_idx(word_opt: Option<&[u8]>, len: usize) -> (r: Result<usize, ModelError>)
    ensures
        match index(
            match word_opt {
                Some(text) => Some(text@),
                None => None,
            },
            len as int,
        ) {
            Ok(i) => r matches Ok(found) && found == i,
            Err(fault) => r matches Err(e) && e.reports(fault),
        },
{
    let idx = match word_opt {
        Some(word) => match read_number(word) {
            Ok(v) => v,
            Err(fault) => {
                return Err(fault.into_error());
            },
        },
        None => {
            return Err(FaceFault::MissingIndex.into_error());
        },
    };
    if idx == 0 || idx - 1 >= len {
        return Err(FaceFault::IndexTooLarge.into_error());
    }
    Ok(idx - 1)
}

/// Finds field `k` of `word`: the bytes between its `/` separators.
pub fn read_field(word: &[u8], k: usize) -> (r: Option<&[u8]>)
    ensures
        match field(word@, k as int) {
            Some(text) => r matches Some(found) && found@ == text,
            None => r is None,
        },
{
    let n = word.len();
    let mut from: usize = 0;
    let mut j: usize = 0;
    loop
        invariant_except_break
            j <= k,
            from <= n,
            n == word@.len(),
            field_start(word@, j as int) == Some(from as int),
        ensures
            j == k,
            from <= n,
            field_start(word@, k as int) == Some(from as int),
        decreases k - j,
    {
        if j == k {
            break ;
        }
        let end = scan_field(word, from);
        if end >= n {
            proof {
                lemma_no_more_fields(word@, j as int, k as int);
            }
            return None;
        }
        from = end + 1;
        j += 1;
    }
    let end = scan_field(word, from);
    Some(vstd::slice::slice_subrange(word, from, end))
}

/// Finds the end of the field that starts at byte `from` of `word`.
fn scan_field(word: &[u8], from: usize) -> (end: usize)
    requires
        from <= word@.len(),
    ensures
        end == field_end(word@, from as int),
        from <= end <= word@.len(),
{
    let n = word.len();
    let mut end: usize = from;
    while end < n && word[end] != 47
        invariant
            from <= end <= n,
            n == word@.len(),
            field_end(word@, from as int) == field_end(word@, end as int),
        decreases n - end,
    {
        end += 1;
    }
    end
}

/// A word that has no field `j + 1` has no later field either.
proof fn lemma_no_more_fields(word: Seq<u8>, j: int, k: int)
    requires
        0 <= j < k,
        field_start(word, j + 1) is None,
    ensures
        field_start(word, k) is None,
    decreases k - j,
{
    if j + 1 < k {
        lemma_no_more_fields(word, j, k - 1);
    }
}

/// Once a fault is found among the first words, more words do not change
/// it.
proof fn lemma_first_fault(
    words: Seq<Seq<u8>>,
    count: int,
    total: int,
    plain: bool,
    vert_len: int,
    texture_len: int,
    normal_len: int,
)
    requires
        0 <= count <= total,
        corners(words, count, plain, vert_len, texture_len, normal_len) is Err,
    ensures
        corners(words, total, plain, vert_len, texture_len, normal_len) == corners(
            words,
            count,
            plain,
            vert_len,
            texture_len,
            normal_len,
        ),
    decreases total - count,
{
    if count < total {
        lemma_first_fault(words, count, total - 1, plain, vert_len, texture_len, normal_len);
    }
}

/// Whether every word is a plain index.
fn plain_words(words: &Vec<Vec<u8>>) -> (plain: bool)
    ensures
        plain == all_plain(words@.map_values(|w: Vec<u8>| w@)),
{
    let ghost texts = words@.map_values(|w: Vec<u8>| w@);
    let mut i: usize = 0;
    while i < words.len()
        invariant
            i <= words@.len(),
            texts == words@.map_values(|w: Vec<u8>| w@),
            forall|j: int| 0 <= j < i ==> is_plain(#[trigger] texts[j]),
        decreases words@.len() - i,
    {
        let word = words[i].as_slice();
        assert(texts[i as int] == word@);
        if scan_field(word, 0) < word.len() {
            return false;
        }
        i += 1;
    }
    true
}

/// Reads the face that the words of a face line name. Either every word is
/// a plain vertex index, counted from one and within the list of vertices;
/// the face then has no texture and no normal indices. Or every word is one
/// corner `vertex/texture/normal`, each index counted from one and within
/// its list. And there are exactly three words.
pub fn read_face(
    words: &Vec<Vec<u8>>,
    vert_len: usize,
    texture_len: usize,
    normal_len: usize,
) -> (r: Result<Face, ModelError>)
    ensures
        match face(
            words@.map_values(|w: Vec<u8>| w@),
            vert_len as int,
            texture_len as int,
            normal_len as int,
        ) {
            Ok(all) => r matches Ok(found) && found.vert@ == all.vert && found.texture@
                == all.texture && found.normal@ == all.normal,
            Err(fault) => r matches Err(e) && e.reports(fault),
        },
{
    let ghost texts = words@.map_values(|w: Vec<u8>| w@);
    let plain = plain_words(words);
    let mut found = Face { vert: Vec::new(), texture: Vec::new(), normal: Vec::new() };
    let mut i: usize = 0;
    while i < words.len()
        invariant
            i <= words@.len(),
            texts == words@.map_values(|w: Vec<u8>| w@),
            plain == all_plain(texts),
            found.vert@.len() == i,
            corners(
                texts,
                i as int,
                plain,
                vert_len as int,
                texture_len as int,
                normal_len as int,
            ) matches Ok(all) && found.vert@ == all.vert && found.texture@ == all.texture
                && found.normal@ == all.normal,
        decreases words@.len() - i,
    {
        let word = words[i].as_slice();
        assert(texts[i as int] == word@);
        proof {
            if corners(
                texts,
                i + 1,
                plain,
                vert_len as int,
                texture_len as int,
                normal_len as int,
            ) is Err {
                lemma_first_fault(
                    texts,
                    i + 1,
                    texts.len() as int,
                    plain,
                    vert_len as int,
                    texture_len as int,
                    normal_len as int,
                );
            }
        }
        let v = match read_idx(read_field(word, 0), vert_len) {
            Ok(v) => v,
            Err(e) => {
                return Err(e);
            },
        };
        if !plain {
            let t = match read_idx(read_field(word, 1), texture_len) {
                Ok(t) => t,
                Err(e) => {
                    return Err(e);
                },
            };
            let n = match read_idx(read_field(word, 2), normal_len) {
                Ok(n) => n,
                Err(e) => {
                    return Err(e);
                },
            };
            found.texture.push(t);
            found.normal.push(n);
        }
        found.vert.push(v);
        i += 1;
    }
    if found.vert.len() != 3 {
        return Err(FaceFault::NotThreeCorners.into_error());
    }
    Ok(found)
}

} // verus!
