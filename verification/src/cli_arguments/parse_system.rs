use vstd::prelude::*;

use crate::game_elements::color::{lemma_color_view_injective, lemma_empty_color_id, Color};
use crate::game_elements::glass::{contents, Glass, GlassError};
use crate::game_elements::glass_system::GlassSystem;
use crate::game_elements::GLASS_CAPACITY;
use crate::text::{decimal, digit_char};

verus! {

broadcast use lemma_color_view_injective, lemma_empty_color_id;

/// Why a field is not a color id (the kinds of `u8::from_str`).
#[derive(Debug, PartialEq, Eq, Structural, Clone, Copy)]
pub enum NumberParseError {
    /// The field is empty.
    Empty,
    /// The field holds something other than an optional `+` and decimal digits.
    InvalidDigit,
    /// The number is larger than 255.
    PosOverflow,
}

/// Errors of reading a system from text.
#[derive(Debug, PartialEq, Eq, Structural, Clone, Copy)]
pub enum SystemParsingError {
    /// A field is not a color id.
    ParseIntError(NumberParseError),
    /// The provided file is empty.
    EmptyFile,
    /// Inconsistent glass size in line compared to the first line.
    InconsistentGlassSize,
    /// The number of color appears more times than the glass size.
    TooManyColorOccurrences(Color),
    /// The number of color appears less times than the glass size.
    TooFewColorOccurrences(Color),
    /// A glass cannot be made of the colors of a line.
    GlassError(GlassError),
}

/// The first position at or after `i` that holds `sep`, or the length.
pub open spec fn sep_at_or_after(b: Seq<u8>, sep: u8, i: int) -> int
    decreases b.len() - i,
{
    if i >= b.len() {
        b.len() as int
    } else if b[i] == sep {
        i
    } else {
        sep_at_or_after(b, sep, i + 1)
    }
}

/// The separator search stays between its start and the length.
pub proof fn lemma_sep_bounds(b: Seq<u8>, sep: u8, i: int)
    requires
        0 <= i,
    ensures
        i <= sep_at_or_after(b, sep, i) <= b.len() || (i > b.len() && sep_at_or_after(b, sep, i) == b.len()),
        sep_at_or_after(b, sep, i) < b.len() ==> b[sep_at_or_after(b, sep, i)] == sep,
        forall|j: int| i <= j < sep_at_or_after(b, sep, i) ==> b[j] != sep,
    decreases b.len() - i,
{
    if i < b.len() && b[i] != sep {
        lemma_sep_bounds(b, sep, i + 1);
    }
}

/// A line without one trailing carriage return.
pub open spec fn strip_cr(l: Seq<u8>) -> Seq<u8> {
    if l.len() > 0 && l.last() == 13u8 {
        l.drop_last()
    } else {
        l
    }
}

/// The lines of a text (as `str::lines`): the pieces between line feeds, a piece that a
/// line feed ends losing one trailing carriage return; after a final line feed no empty
/// line follows.
pub open spec fn text_lines(b: Seq<u8>) -> Seq<Seq<u8>>
    decreases b.len(),
{
    if b.len() == 0 {
        Seq::empty()
    } else {
        let i = sep_at_or_after(b, 10u8, 0);
        proof {
            lemma_sep_bounds(b, 10u8, 0);
        }
        if i >= b.len() {
            seq![b]
        } else {
            seq![strip_cr(b.take(i))] + text_lines(b.skip(i + 1))
        }
    }
}

/// The fields of a line (as `str::split(';')`): the pieces between semicolons, empty ones included.
pub open spec fn line_fields(l: Seq<u8>) -> Seq<Seq<u8>>
    decreases l.len(),
{
    let i = sep_at_or_after(l, 59u8, 0);
    proof {
        lemma_sep_bounds(l, 59u8, 0);
    }
    if i >= l.len() {
        seq![l]
    } else {
        seq![l.take(i)] + line_fields(l.skip(i + 1))
    }
}

/// A decimal digit.
pub open spec fn is_digit(c: u8) -> bool {
    48 <= c <= 57
}

/// The value of decimal digits.
pub open spec fn digits_value(d: Seq<u8>) -> nat
    decreases d.len(),
{
    if d.len() == 0 {
        0
    } else {
        digits_value(d.drop_last()) * 10 + (d.last() - 48) as nat
    }
}

/// Reading the digits from position `i` on: the first non-digit, or the first
/// digit after which the value exceeds 255.
pub open spec fn digits_error(d: Seq<u8>, i: int) -> Option<NumberParseError>
    decreases d.len() - i,
{
    if i >= d.len() || i < 0 {
        None
    } else if !is_digit(d[i]) {
        Some(NumberParseError::InvalidDigit)
    } else if digits_value(d.take(i + 1)) > 255 {
        Some(NumberParseError::PosOverflow)
    } else {
        digits_error(d, i + 1)
    }
}

/// A field read as a color id (as `u8::from_str`): an optional `+` and decimal digits.
pub open spec fn field_value(f: Seq<u8>) -> Result<u8, NumberParseError> {
    if f.len() == 0 {
        Err(NumberParseError::Empty)
    } else if f.len() == 1 && (f[0] == 43u8 || f[0] == 45u8) {
        Err(NumberParseError::InvalidDigit)
    } else {
        let d = if f[0] == 43u8 { f.drop_first() } else { f };
        match digits_error(d, 0) {
            Some(e) => Err(e),
            None => Ok(digits_value(d) as u8),
        }
    }
}

/// The color ids of the first `n` fields, or the error of the first field that is not one.
pub open spec fn fields_ids(fs: Seq<Seq<u8>>, n: int) -> Result<Seq<u8>, NumberParseError>
    decreases n,
{
    if n <= 0 {
        Ok(Seq::empty())
    } else {
        match fields_ids(fs, n - 1) {
            Err(e) => Err(e),
            Ok(ids) => match field_value(fs[n - 1]) {
                Err(e) => Err(e),
                Ok(v) => Ok(ids.push(v)),
            },
        }
    }
}

/// The color ids of a line.
pub open spec fn line_ids(l: Seq<u8>) -> Result<Seq<u8>, NumberParseError> {
    fields_ids(line_fields(l), line_fields(l).len() as int)
}

/// The glass size the lines give: the number of colors of the first line.
pub open spec fn first_size(ls: Seq<Seq<u8>>) -> nat {
    line_ids(ls[0]).unwrap().len()
}

/// What is wrong with line `k` of the lines, if anything: a field that is not a color id,
/// or, for a later line, another number of colors than the first line has.
pub open spec fn line_problem(ls: Seq<Seq<u8>>, k: int) -> Option<SystemParsingError> {
    match line_ids(ls[k]) {
        Err(e) => Some(SystemParsingError::ParseIntError(e)),
        Ok(ids) => if k > 0 && ids.len() != first_size(ls) {
            Some(SystemParsingError::InconsistentGlassSize)
        } else {
            None
        },
    }
}

/// The first problem among the first `n` lines.
pub open spec fn lines_problem(ls: Seq<Seq<u8>>, n: int) -> Option<SystemParsingError>
    decreases n,
{
    if n <= 0 {
        None
    } else {
        match lines_problem(ls, n - 1) {
            Some(e) => Some(e),
            None => line_problem(ls, n - 1),
        }
    }
}

/// How often `id` occurs among the first `n` entries.
pub open spec fn occurrences(s: Seq<u8>, n: int, id: int) -> nat
    decreases n,
{
    if n <= 0 {
        0
    } else {
        occurrences(s, n - 1, id) + if s[n - 1] == id { 1nat } else { 0nat }
    }
}

/// How often `id` occurs in the first `n` lines.
pub open spec fn id_count(ls: Seq<Seq<u8>>, n: int, id: int) -> nat
    decreases n,
{
    if n <= 0 {
        0
    } else {
        let ids = line_ids(ls[n - 1]).unwrap();
        id_count(ls, n - 1, id) + occurrences(ids, ids.len() as int, id)
    }
}

/// The occurrence check over color ids from `from` on: the first id that occurs,
/// but not exactly as often as the glass size.
pub open spec fn count_problem(ls: Seq<Seq<u8>>, from: int) -> Option<SystemParsingError>
    decreases 256 - from,
{
    if from >= 256 || from < 0 {
        None
    } else {
        let c = id_count(ls, ls.len() as int, from);
        if c > first_size(ls) {
            Some(SystemParsingError::TooManyColorOccurrences(color_of(from as u8)))
        } else if 0 < c < first_size(ls) {
            Some(SystemParsingError::TooFewColorOccurrences(color_of(from as u8)))
        } else {
            count_problem(ls, from + 1)
        }
    }
}

/// The color with this id.
pub open spec fn color_of(id: u8) -> Color {
    choose|c: Color| c@ == id
}

/// Searching in a suffix is searching from its start.
proof fn lemma_sep_skip(b: Seq<u8>, sep: u8, p: int, i: int)
    requires
        0 <= p <= b.len(),
        0 <= i,
    ensures
        sep_at_or_after(b.skip(p), sep, i) == sep_at_or_after(b, sep, p + i) - p,
    decreases b.len() - p - i,
{
    if p + i < b.len() && b[p + i] != sep {
        lemma_sep_skip(b, sep, p, i + 1);
    }
}

/// The first position at or after `start` that holds `sep`, or the length.
fn find_sep(b: &[u8], sep: u8, start: usize) -> (end: usize)
    requires
        start <= b@.len(),
    ensures
        end == sep_at_or_after(b@, sep, start as int),
        start <= end <= b@.len(),
{
    let mut i = start;
    while i < b.len() && b[i] != sep
        invariant
            start <= i <= b@.len(),
            sep_at_or_after(b@, sep, i as int) == sep_at_or_after(b@, sep, start as int),
        decreases b@.len() - i,
    {
        i = i + 1;
    }
    i
}

/// A copy of the bytes `from..to`.
fn copy_range(b: &[u8], from: usize, to: usize) -> (r: Vec<u8>)
    requires
        from <= to <= b@.len(),
    ensures
        r@ == b@.subrange(from as int, to as int),
{
    let mut r: Vec<u8> = Vec::new();
    let mut i = from;
    while i < to
        invariant
            from <= i <= to <= b@.len(),
            r@ == b@.subrange(from as int, i as int),
        decreases to - i,
    {
        r.push(b[i]);
        i = i + 1;
        assert(r@ =~= b@.subrange(from as int, i as int));
    }
    r
}

/// The views of byte vectors.
pub open spec fn byte_views(v: Seq<Vec<u8>>) -> Seq<Seq<u8>> {
    v.map_values(|x: Vec<u8>| x@)
}

/// Splits a text into lines (as `str::lines`).
fn split_lines(content: &[u8]) -> (lines: Vec<Vec<u8>>)
    ensures
        byte_views(lines@) == text_lines(content@),
{
    let n = content.len();
    let mut lines: Vec<Vec<u8>> = Vec::new();
    let mut pos: usize = 0;
    assert(content@.skip(0) =~= content@);
    while pos < n
        invariant
            n == content@.len(),
            pos <= n,
            byte_views(lines@) + text_lines(content@.skip(pos as int)) == text_lines(content@),
        decreases n - pos,
    {
        let i = find_sep(content, 10u8, pos);
        let ghost rest = content@.skip(pos as int);
        proof {
            lemma_sep_skip(content@, 10u8, pos as int, 0);
            lemma_sep_bounds(rest, 10u8, 0);
        }
        let ghost before = byte_views(lines@);
        if i >= n {
            let line = copy_range(content, pos, n);
            lines.push(line);
            proof {
                assert(line@ =~= rest);
                assert(byte_views(lines@) =~= before.push(rest));
                assert(text_lines(rest) == seq![rest]);
                assert(content@.skip(n as int) =~= Seq::<u8>::empty());
                assert(before + seq![rest] =~= before.push(rest));
            }
            pos = n;
        } else {
            let mut line = copy_range(content, pos, i);
            if line.len() > 0 && line[line.len() - 1] == 13u8 {
                line.pop();
            }
            proof {
                assert(content@.subrange(pos as int, i as int) =~= rest.take(i - pos));
                assert(line@ == strip_cr(rest.take(i - pos)));
                assert(rest.skip(i - pos + 1) =~= content@.skip(i + 1));
            }
            lines.push(line);
            proof {
                assert(byte_views(lines@) =~= before.push(strip_cr(rest.take(i - pos))));
                assert(seq![strip_cr(rest.take(i - pos))] + text_lines(rest.skip(i - pos + 1)) == text_lines(rest));
                assert(before + text_lines(rest) =~= byte_views(lines@) + text_lines(content@.skip(i + 1)));
            }
            pos = i + 1;
        }
    }
    proof {
        assert(content@.skip(n as int) =~= Seq::<u8>::empty());
        assert(byte_views(lines@) + Seq::<Seq<u8>>::empty() =~= byte_views(lines@));
    }
    lines
}

/// Splits a line into fields (as `str::split(';')`).
fn split_fields(line: &[u8]) -> (fields: Vec<Vec<u8>>)
    ensures
        byte_views(fields@) == line_fields(line@),
{
    let n = line.len();
    let mut fields: Vec<Vec<u8>> = Vec::new();
    let mut pos: usize = 0;
    assert(line@.skip(0) =~= line@);
    loop
        invariant
            n == line@.len(),
            pos <= n,
            byte_views(fields@) + line_fields(line@.skip(pos as int)) == line_fields(line@),
        decreases n - pos,
    {
        let i = find_sep(line, 59u8, pos);
        let ghost rest = line@.skip(pos as int);
        proof {
            lemma_sep_skip(line@, 59u8, pos as int, 0);
            lemma_sep_bounds(rest, 59u8, 0);
        }
        let ghost before = byte_views(fields@);
        let field = copy_range(line, pos, i);
        fields.push(field);
        if i >= n {
            proof {
                assert(field@ =~= rest);
                assert(byte_views(fields@) =~= before.push(rest));
                assert(line_fields(rest) == seq![rest]);
                assert(before + seq![rest] =~= before.push(rest));
            }
            return fields;
        }
        proof {
            assert(field@ =~= rest.take(i - pos));
            assert(rest.skip(i - pos + 1) =~= line@.skip(i + 1));
            assert(byte_views(fields@) =~= before.push(rest.take(i - pos)));
            assert(seq![rest.take(i - pos)] + line_fields(rest.skip(i - pos + 1)) == line_fields(rest));
            assert(before + line_fields(rest) =~= byte_views(fields@) + line_fields(line@.skip(i + 1)));
        }
        pos = i + 1;
    }
}

/// Reads a field as a color id (as `u8::from_str`).
fn parse_color_id(f: &[u8]) -> (r: Result<u8, NumberParseError>)
    ensures
        r == field_value(f@),
{
    let n = f.len();
    if n == 0 {
        return Err(NumberParseError::Empty);
    }
    if n == 1 && (f[0] == 43u8 || f[0] == 45u8) {
        return Err(NumberParseError::InvalidDigit);
    }
    let start: usize = if f[0] == 43u8 { 1 } else { 0 };
    let ghost d = if f@[0] == 43u8 { f@.drop_first() } else { f@ };
    assert(d =~= f@.skip(start as int));
    let mut value: u32 = 0;
    let mut i = start;
    assert(d.take(0) =~= Seq::<u8>::empty());
    while i < n
        invariant
            n == f@.len(),
            start <= i <= n,
            d == f@.skip(start as int),
            field_value(f@) == (match digits_error(d, 0) {
                Some(e) => Err(e),
                None => Ok(digits_value(d) as u8),
            }),
            digits_error(d, 0) == digits_error(d, (i - start) as int),
            value == digits_value(d.take((i - start) as int)),
            value <= 255,
        decreases n - i,
    {
        let c = f[i];
        let k = i - start;
        assert(d[k as int] == c);
        if c < 48u8 || c > 57u8 {
            return Err(NumberParseError::InvalidDigit);
        }
        proof {
            assert(d.take(k + 1).drop_last() =~= d.take(k as int));
            assert(d.take(k + 1).last() == c);
        }
        value = value * 10 + (c - 48u8) as u32;
        if value > 255 {
            return Err(NumberParseError::PosOverflow);
        }
        i = i + 1;
    }
    proof {
        assert(d.take((n - start) as int) =~= d);
        assert(digits_error(d, (n - start) as int) is None);
    }
    Ok(value as u8)
}

/// The ids of colors.
pub open spec fn color_ids(v: Seq<Color>) -> Seq<u8> {
    v.map_values(|c: Color| c@)
}

/// Reads the colors of a line.
fn get_colors_from_line(line: &[u8]) -> (r: Result<Vec<Color>, SystemParsingError>)
    ensures
        line_ids(line@) matches Err(e) ==> r == Err::<Vec<Color>, SystemParsingError>(SystemParsingError::ParseIntError(e)),
        line_ids(line@) matches Ok(ids) ==> (r matches Ok(v) && color_ids(v@) == ids),
{
    let fields = split_fields(line);
    let ghost fs = line_fields(line@);
    let mut colors: Vec<Color> = Vec::new();
    let mut k: usize = 0;
    assert(color_ids(colors@) =~= Seq::<u8>::empty());
    while k < fields.len()
        invariant
            byte_views(fields@) == fs,
            fs == line_fields(line@),
            k <= fields@.len(),
            fields_ids(fs, k as int) == Ok::<Seq<u8>, NumberParseError>(color_ids(colors@)),
        decreases fields@.len() - k,
    {
        assert(fs[k as int] == fields@[k as int]@);
        match parse_color_id(fields[k].as_slice()) {
            Ok(id) => {
                let ghost before = colors@;
                colors.push(Color::new(id));
                assert(color_ids(colors@) =~= color_ids(before).push(id));
            },
            Err(e) => {
                proof {
                    lemma_fields_ids_err(fs, k as int + 1, fs.len() as int, e);
                }
                return Err(SystemParsingError::ParseIntError(e));
            },
        }
        k = k + 1;
    }
    Ok(colors)
}

/// Once reading the fields fails, it fails with the same error.
proof fn lemma_fields_ids_err(fs: Seq<Seq<u8>>, m: int, n: int, e: NumberParseError)
    requires
        1 <= m <= n,
        fields_ids(fs, m) == Err::<Seq<u8>, NumberParseError>(e),
    ensures
        fields_ids(fs, n) == Err::<Seq<u8>, NumberParseError>(e),
    decreases n - m,
{
    if m < n {
        lemma_fields_ids_err(fs, m + 1, n, e);
    }
}

/// Once a line has a problem, the first problem stays the same for more lines.
proof fn lemma_lines_problem_stays(ls: Seq<Seq<u8>>, m: int, n: int)
    requires
        0 <= m <= n,
        lines_problem(ls, m) is Some,
    ensures
        lines_problem(ls, n) == lines_problem(ls, m),
    decreases n - m,
{
    if m < n {
        lemma_lines_problem_stays(ls, m, n - 1);
    }
}

/// The smaller of a count and `cap`.
pub open spec fn capped(c: nat, cap: nat) -> nat {
    if c > cap { cap } else { c }
}

/// The glasses read from the lines, followed by two empty glasses.
pub open spec fn parsed_glasses(ls: Seq<Seq<u8>>, sys: Seq<Glass>) -> bool {
    &&& sys.len() == ls.len() + 2
    &&& forall|k: int| 0 <= k < ls.len() ==> {
        &&& (#[trigger] sys[k]).top == GLASS_CAPACITY
        &&& sys[k].glass@[0]@ == 0
        &&& color_ids(contents(sys[k])) == line_ids(ls[k]).unwrap()
    }
    &&& forall|k: int| ls.len() <= k < ls.len() + 2 ==> {
        &&& (#[trigger] sys[k]).top == 0
        &&& forall|i: int| 0 <= i < 5 ==> (#[trigger] sys[k].glass@[i])@ == 0
    }
}

/// What reading a text gives: no lines, the first problem of a line, the first color id
/// that occurs but not exactly as often as the glass size, a glass size other than
/// `GLASS_CAPACITY` (the only size a `Glass` has), or the glasses.
pub open spec fn parse_outcome(content: Seq<u8>, r: Result<GlassSystem, SystemParsingError>) -> bool {
    let ls = text_lines(content);
    if ls.len() == 0 {
        r == Err::<GlassSystem, SystemParsingError>(SystemParsingError::EmptyFile)
    } else if lines_problem(ls, ls.len() as int) is Some {
        r == Err::<GlassSystem, SystemParsingError>(lines_problem(ls, ls.len() as int).unwrap())
    } else if count_problem(ls, 0) is Some {
        r == Err::<GlassSystem, SystemParsingError>(count_problem(ls, 0).unwrap())
    } else if first_size(ls) != GLASS_CAPACITY {
        r == Err::<GlassSystem, SystemParsingError>(
            SystemParsingError::GlassError(GlassError::InvalidConstructorColorLength(first_size(ls) as usize)),
        )
    } else {
        r matches Ok(sys) && parsed_glasses(ls, sys@)
    }
}

/// Reads a system from text: one line per glass, the color ids of a glass from the
/// bottom up separated by `;`. All lines must have as many colors as the first, each
/// color must occur exactly that often, and that glass size must be `GLASS_CAPACITY`;
/// two empty glasses are added.
pub fn parse_system_text(content: &[u8]) -> (r: Result<GlassSystem, SystemParsingError>)
    ensures
        parse_outcome(content@, r),
{
    let lines = split_lines(content);
    let ghost ls = text_lines(content@);
    if lines.len() == 0 {
        return Err(SystemParsingError::EmptyFile);
    }
    let mut counts: Vec<usize> = Vec::new();
    let mut over: Vec<bool> = Vec::new();
    let mut x: usize = 0;
    while x < 256
        invariant
            x <= 256,
            counts@.len() == x,
            over@.len() == x,
            forall|y: int| 0 <= y < x ==> counts@[y] == 0 && !over@[y],
        decreases 256 - x,
    {
        counts.push(0);
        over.push(false);
        x = x + 1;
    }
    let mut glasses: Vec<Glass> = Vec::new();
    let mut glass_size: usize = 0;
    let n = lines.len();
    let mut k: usize = 0;
    while k < n
        invariant
            n == lines@.len() == ls.len(),
            ls == text_lines(content@),
            byte_views(lines@) == ls,
            k <= n,
            lines_problem(ls, k as int) is None,
            k > 0 ==> glass_size == first_size(ls),
            counts@.len() == 256,
            over@.len() == 256,
            forall|y: int| 0 <= y < 256 ==> #[trigger] counts@[y] == capped(id_count(ls, k as int, y), glass_size as nat),
            forall|y: int| 0 <= y < 256 ==> #[trigger] over@[y] == (id_count(ls, k as int, y) > glass_size),
            k == 0 ==> glasses@.len() == 0,
            glass_size == GLASS_CAPACITY ==> glasses@.len() == k,
            glass_size == GLASS_CAPACITY ==> forall|j: int| 0 <= j < k ==> {
                &&& (#[trigger] glasses@[j]).top == GLASS_CAPACITY
                &&& glasses@[j].glass@[0]@ == 0
                &&& color_ids(contents(glasses@[j])) == line_ids(ls[j]).unwrap()
            },
        decreases n - k,
    {
        assert(ls[k as int] == lines@[k as int]@);
        let colors = match get_colors_from_line(lines[k].as_slice()) {
            Ok(c) => c,
            Err(e) => {
                proof {
                    assert(lines_problem(ls, k + 1) == Some(e));
                    lemma_lines_problem_stays(ls, k + 1, n as int);
                }
                return Err(e);
            },
        };
        let ghost ids = line_ids(ls[k as int]).unwrap();
        assert(color_ids(colors@) == ids);
        assert(colors@.len() == ids.len());
        if k == 0 {
            glass_size = colors.len();
            proof {
                assert(id_count(ls, 0, 0) == 0);
                assert forall|y: int| 0 <= y < 256 implies #[trigger] counts@[y] == capped(id_count(ls, 0, y), glass_size as nat) && over@[y] == (id_count(ls, 0, y) > glass_size) by {
                    assert(id_count(ls, 0, y) == 0);
                }
            }
        } else if glass_size != colors.len() {
            proof {
                assert(lines_problem(ls, k + 1) == Some(SystemParsingError::InconsistentGlassSize));
                lemma_lines_problem_stays(ls, k + 1, n as int);
            }
            return Err(SystemParsingError::InconsistentGlassSize);
        }
        assert(glass_size == first_size(ls));
        assert(lines_problem(ls, k + 1) is None);
        let mut j: usize = 0;
        while j < colors.len()
            invariant
                color_ids(colors@) == ids,
                counts@.len() == 256,
                over@.len() == 256,
                j <= colors@.len(),
                forall|y: int| 0 <= y < 256 ==> #[trigger] counts@[y] == capped(id_count(ls, k as int, y) + occurrences(ids, j as int, y), glass_size as nat),
                forall|y: int| 0 <= y < 256 ==> #[trigger] over@[y] == (id_count(ls, k as int, y) + occurrences(ids, j as int, y) > glass_size),
            decreases colors@.len() - j,
        {
            let id = colors[j].id() as usize;
            assert(ids[j as int] == id);
            if counts[id] < glass_size {
                let c = counts[id];
                counts.set(id, c + 1);
            } else {
                over.set(id, true);
            }
            j = j + 1;
        }
        if glass_size == GLASS_CAPACITY {
            let glass = match Glass::from_colors(colors.as_slice()) {
                Ok(g) => g,
                Err(e) => {
                    assert(false);
                    return Err(SystemParsingError::GlassError(e));
                },
            };
            glasses.push(glass);
        }
        k = k + 1;
    }
    let mut id: usize = 0;
    while id < 256
        invariant
            n == ls.len() > 0,
            ls == text_lines(content@),
            lines_problem(ls, n as int) is None,
            glass_size == first_size(ls),
            counts@.len() == 256,
            over@.len() == 256,
            forall|y: int| 0 <= y < 256 ==> #[trigger] counts@[y] == capped(id_count(ls, n as int, y), glass_size as nat),
            forall|y: int| 0 <= y < 256 ==> #[trigger] over@[y] == (id_count(ls, n as int, y) > glass_size),
            id <= 256,
            count_problem(ls, 0) == count_problem(ls, id as int),
        decreases 256 - id,
    {
        let c = counts[id];
        if over[id] {
            let color = Color::new(id as u8);
            assert(color == color_of(id as u8));
            return Err(SystemParsingError::TooManyColorOccurrences(color));
        }
        assert(c == id_count(ls, n as int, id as int));
        if c > 0 && c < glass_size {
            let color = Color::new(id as u8);
            assert(color == color_of(id as u8));
            return Err(SystemParsingError::TooFewColorOccurrences(color));
        }
        id = id + 1;
    }
    if glass_size != GLASS_CAPACITY {
        return Err(SystemParsingError::GlassError(GlassError::InvalidConstructorColorLength(glass_size)));
    }
    let mut e: usize = 0;
    while e < 2
        invariant
            e <= 2,
            glasses@.len() == n + e,
            forall|j: int| 0 <= j < n ==> {
                &&& (#[trigger] glasses@[j]).top == GLASS_CAPACITY
                &&& glasses@[j].glass@[0]@ == 0
                &&& color_ids(contents(glasses@[j])) == line_ids(ls[j]).unwrap()
            },
            forall|j: int| n <= j < n + e ==> {
                &&& (#[trigger] glasses@[j]).top == 0
                &&& forall|i: int| 0 <= i < 5 ==> (#[trigger] glasses@[j].glass@[i])@ == 0
            },
        decreases 2 - e,
    {
        glasses.push(Glass::new());
        e = e + 1;
    }
    Ok(GlassSystem::new(glasses))
}

/// The bytes of an ASCII text.
pub open spec fn ascii(t: Seq<char>) -> Seq<u8> {
    t.map_values(|c: char| c as u8)
}

/// The decimal notation of `m`, as bytes, is made of digits whose value is `m`, and no
/// prefix of it has a larger value.
proof fn lemma_decimal_digits(m: nat)
    ensures
        ascii(decimal(m)).len() >= 1,
        forall|j: int| 0 <= j < ascii(decimal(m)).len() ==> is_digit(#[trigger] ascii(decimal(m))[j]),
        forall|j: int| 0 <= j <= ascii(decimal(m)).len() ==> #[trigger] digits_value(ascii(decimal(m)).take(j)) <= m,
        digits_value(ascii(decimal(m))) == m,
    decreases m,
{
    let d = ascii(decimal(m));
    if m < 10 {
        assert(decimal(m) == seq![digit_char(m)]);
        assert(d.len() == 1);
        assert(d[0] == digit_char(m) as u8);
        assert(digit_char(m) as u8 == 48 + m);
        assert(d.drop_last() =~= Seq::<u8>::empty());
        assert(digits_value(Seq::<u8>::empty()) == 0);
        assert(digits_value(d) == digits_value(d.drop_last()) * 10 + (d.last() - 48) as nat);
        assert(digits_value(d) == m);
        assert(d.take(0) =~= Seq::<u8>::empty());
        assert(d.take(1) =~= d);
        assert forall|j: int| 0 <= j <= d.len() implies #[trigger] digits_value(d.take(j)) <= m by {
            if j == 0 {
                assert(d.take(j) =~= Seq::<u8>::empty());
            } else {
                assert(d.take(j) =~= d);
            }
        }
    } else {
        let q = m / 10;
        let r = m % 10;
        lemma_decimal_digits(q);
        let dq = ascii(decimal(q));
        assert(decimal(m) == decimal(q).push(digit_char(r)));
        assert(d =~= dq.push(digit_char(r) as u8));
        assert(digit_char(r) as u8 == 48 + r);
        assert(d.drop_last() =~= dq);
        assert(digits_value(d) == digits_value(d.drop_last()) * 10 + (d.last() - 48) as nat);
        assert(digits_value(d) == q * 10 + r);
        assert forall|j: int| 0 <= j < d.len() implies is_digit(#[trigger] d[j]) by {
            if j < dq.len() {
                assert(d[j] == dq[j]);
            }
        }
        assert forall|j: int| 0 <= j <= d.len() implies #[trigger] digits_value(d.take(j)) <= m by {
            if j < d.len() {
                assert(d.take(j) =~= dq.take(j));
            } else {
                assert(d.take(j) =~= d);
            }
        }
    }
}

/// Digits whose every prefix has a value of at most 255 read without an error.
proof fn lemma_digits_no_error(d: Seq<u8>, i: int)
    requires
        0 <= i,
        forall|j: int| 0 <= j < d.len() ==> is_digit(#[trigger] d[j]),
        forall|j: int| 0 <= j <= d.len() ==> #[trigger] digits_value(d.take(j)) <= 255,
    ensures
        digits_error(d, i) is None,
    decreases d.len() - i,
{
    if i < d.len() {
        assert(digits_value(d.take(i + 1)) <= 255);
        lemma_digits_no_error(d, i + 1);
    }
}

/// Reading the decimal notation of a color id gives that id, with or without a leading `+`
/// (as `u8::from_str` reads it).
pub proof fn lemma_field_reads_decimal(n: u8)
    ensures
        field_value(ascii(decimal(n as nat))) == Ok::<u8, NumberParseError>(n),
        field_value(seq![43u8] + ascii(decimal(n as nat))) == Ok::<u8, NumberParseError>(n),
{
    let d = ascii(decimal(n as nat));
    lemma_decimal_digits(n as nat);
    lemma_digits_no_error(d, 0);
    assert(is_digit(d[0]));
    let f = seq![43u8] + d;
    assert(f[0] == 43u8);
    assert(f.drop_first() =~= d);
}

/// The text of a line holding the color ids `ids`: their decimal notations separated by `;`.
pub open spec fn line_of(ids: Seq<u8>) -> Seq<u8>
    decreases ids.len(),
{
    if ids.len() == 0 {
        Seq::empty()
    } else if ids.len() == 1 {
        ascii(decimal(ids[0] as nat))
    } else {
        ascii(decimal(ids[0] as nat)) + seq![59u8] + line_of(ids.drop_first())
    }
}

/// The fields of such a line are the decimal notations of the ids.
proof fn lemma_line_of_fields(ids: Seq<u8>)
    requires
        ids.len() >= 1,
    ensures
        line_fields(line_of(ids)) == ids.map_values(|x: u8| ascii(decimal(x as nat))),
    decreases ids.len(),
{
    let l = line_of(ids);
    let d = ascii(decimal(ids[0] as nat));
    lemma_decimal_digits(ids[0] as nat);
    lemma_sep_bounds(l, 59u8, 0);
    let i = sep_at_or_after(l, 59u8, 0);
    if ids.len() == 1 {
        if i < l.len() {
            assert(is_digit(l[i]));
        }
        assert(line_fields(l) == seq![l]);
        assert(ids.map_values(|x: u8| ascii(decimal(x as nat))) =~= seq![d]);
    } else {
        let rest = ids.drop_first();
        assert(l[d.len() as int] == 59u8);
        assert forall|j: int| 0 <= j < d.len() implies l[j] != 59u8 by {
            assert(l[j] == d[j]);
            assert(is_digit(d[j]));
        }
        if i < d.len() {
            assert(l[i] == 59u8);
        }
        assert(i == d.len());
        assert(l.take(i) =~= d);
        assert(l.skip(i + 1) =~= line_of(rest));
        lemma_line_of_fields(rest);
        assert(line_fields(l) == seq![d] + line_fields(line_of(rest)));
        assert(ids.map_values(|x: u8| ascii(decimal(x as nat))) =~= seq![d] + rest.map_values(|x: u8| ascii(decimal(x as nat))));
    }
}

/// Reading fields that are the decimal notations of ids gives those ids.
proof fn lemma_fields_read_decimal(ids: Seq<u8>, n: int)
    requires
        0 <= n <= ids.len(),
    ensures
        fields_ids(ids.map_values(|x: u8| ascii(decimal(x as nat))), n) == Ok::<Seq<u8>, NumberParseError>(ids.take(n)),
    decreases n,
{
    if n == 0 {
        assert(ids.take(0) =~= Seq::<u8>::empty());
    } else {
        lemma_fields_read_decimal(ids, n - 1);
        lemma_field_reads_decimal(ids[n - 1]);
        assert(ids.take(n - 1).push(ids[n - 1]) =~= ids.take(n));
    }
}

/// A line of color ids written in decimal and separated by `;` reads as exactly those ids,
/// in order.
pub proof fn lemma_line_reads_ids(ids: Seq<u8>)
    requires
        ids.len() >= 1,
    ensures
        line_ids(line_of(ids)) == Ok::<Seq<u8>, NumberParseError>(ids),
{
    lemma_line_of_fields(ids);
    lemma_fields_read_decimal(ids, ids.len() as int);
    assert(ids.take(ids.len() as int) =~= ids);
}

} // verus!
