use vstd::prelude::*;
use vstd::std_specs::iter::IteratorSpec;

verus! {

/// The two text formats a pattern can be written in.
#[derive(PartialEq, Eq, Structural, Clone, Copy, Debug)]
pub enum PatternFormat {
    /// A `{dead alive}` glyph pair, then one line of glyphs per pattern row.
    Chars,
    /// `row,col` pairs of decimal numbers, anywhere in the text.
    Coords,
}

/// Why a pattern text could not become a board.
#[derive(PartialEq, Eq, Structural, Clone, Copy, Debug)]
pub enum PatternError {
    /// The text starts with neither `chars` nor `coords`.
    UnknownFormat,
    /// A `chars` text holds no `{dead alive}` glyph pair.
    MissingGlyphs,
    /// A pattern cell lies outside the board.
    TooLarge,
}

/// `s` starts with `prefix`.
pub open spec fn starts_with(s: Seq<char>, prefix: Seq<char>) -> bool {
    prefix.len() <= s.len() && s.take(prefix.len() as int) == prefix
}

/// The format selected by the first word of the text, if it is a known one.
pub open spec fn format_of(s: Seq<char>) -> Option<PatternFormat> {
    if starts_with(s, seq!['c', 'h', 'a', 'r', 's']) {
        Some(PatternFormat::Chars)
    } else if starts_with(s, seq!['c', 'o', 'o', 'r', 'd', 's']) {
        Some(PatternFormat::Coords)
    } else {
        None
    }
}

/// An ASCII decimal digit.
pub open spec fn is_digit(ch: char) -> bool {
    '0' <= ch && ch <= '9'
}

/// The end of the run of decimal digits that starts at `i`.
pub open spec fn digit_run_end(s: Seq<char>, i: int) -> int
    decreases s.len() - i,
{
    if 0 <= i < s.len() && is_digit(s[i]) {
        digit_run_end(s, i + 1)
    } else {
        i
    }
}

/// The number written in decimal by the digits `s[i..e]`.
pub open spec fn decimal_value(s: Seq<char>, i: int, e: int) -> nat
    decreases e - i,
{
    if e <= i {
        0
    } else {
        decimal_value(s, i, e - 1) * 10 + ((s[e - 1] as u32) - ('0' as u32)) as nat
    }
}

/// A pair of numbers starts at `i`: a run of digits, the separator `sep`,
/// and a digit.
pub open spec fn pair_at(s: Seq<char>, i: int, sep: char) -> bool {
    let e = digit_run_end(s, i);
    &&& 0 <= i < s.len()
    &&& is_digit(s[i])
    &&& e + 1 < s.len()
    &&& s[e] == sep
    &&& is_digit(s[e + 1])
}

/// The pairs of numbers separated by `sep` found from position `i` on,
/// scanning left to right; after a pair the scan resumes where its second
/// number ends.
pub open spec fn pairs_from(s: Seq<char>, i: int, sep: char) -> Seq<(nat, nat)>
    decreases s.len() - i,
{
    if i < 0 || i >= s.len() {
        seq![]
    } else if pair_at(s, i, sep) {
        let e = digit_run_end(s, i);
        let e2 = digit_run_end(s, e + 1);
        let resume = if i < e2 <= s.len() {
            e2
        } else {
            i + 1
        };
        seq![(decimal_value(s, i, e), decimal_value(s, e + 1, e2))] + pairs_from(s, resume, sep)
    } else {
        pairs_from(s, i + 1, sep)
    }
}

proof fn lemma_digit_run_end_bounds(s: Seq<char>, i: int)
    requires
        0 <= i <= s.len(),
    ensures
        i <= digit_run_end(s, i) <= s.len(),
        forall|j: int| i <= j < digit_run_end(s, i) ==> is_digit(#[trigger] s[j]),
    decreases s.len() - i,
{
    if i < s.len() && is_digit(s[i]) {
        lemma_digit_run_end_bounds(s, i + 1);
    }
}

/// The pairs of `v` as natural numbers.
pub open spec fn nat_pairs(v: Seq<(usize, usize)>) -> Seq<(nat, nat)> {
    v.map_values(|p: (usize, usize)| (p.0 as nat, p.1 as nat))
}

/// Every cell of the pattern lies on a `rows` by `cols` board.
pub open spec fn fits(p: Seq<(nat, nat)>, rows: nat, cols: nat) -> bool {
    forall|i: int| 0 <= i < p.len() ==> #[trigger] p[i].0 < rows && p[i].1 < cols
}

/// The largest row of the pattern, or 0 for an empty one.
pub open spec fn max_row(p: Seq<(nat, nat)>) -> nat
    decreases p.len(),
{
    if p.len() == 0 {
        0
    } else if p.last().0 > max_row(p.drop_last()) {
        p.last().0
    } else {
        max_row(p.drop_last())
    }
}

/// The largest column of the pattern, or 0 for an empty one.
pub open spec fn max_col(p: Seq<(nat, nat)>) -> nat
    decreases p.len(),
{
    if p.len() == 0 {
        0
    } else if p.last().1 > max_col(p.drop_last()) {
        p.last().1
    } else {
        max_col(p.drop_last())
    }
}

/// The pattern moved by half the room that its largest row and column leave
/// on the board (rounded down).
pub open spec fn centered(p: Seq<(nat, nat)>, rows: nat, cols: nat) -> Set<(usize, usize)> {
    let dr = (rows - max_row(p)) / 2;
    let dc = (cols - max_col(p)) / 2;
    Set::new(
        |q: (usize, usize)|
            exists|i: int| 0 <= i < p.len() && q.0 == #[trigger] p[i].0 + dr && q.1 == p[i].1 + dc,
    )
}

/// The cells of a `coords` text: its `row,col` pairs in order.
pub open spec fn coord_cells(s: Seq<char>) -> Seq<(nat, nat)> {
    pairs_from(s, 0, ',')
}

/// The board size that a `{rows}x{cols}` text gives: its first pair of
/// numbers separated by `x`.
pub open spec fn dimensions_of(s: Seq<char>) -> Option<(nat, nat)> {
    if pairs_from(s, 0, 'x').len() > 0 {
        Some(pairs_from(s, 0, 'x')[0])
    } else {
        None
    }
}

/// The end of the run of decimal digits that starts at `i`.
fn run_end(s: &Vec<char>, i: usize) -> (e: usize)
    requires
        i <= s.len(),
    ensures
        e as int == digit_run_end(s@, i as int),
        i <= e <= s.len(),
{
    let mut e = i;
    while e < s.len() && '0' <= s[e] && s[e] <= '9'
        invariant
            i <= e <= s.len(),
            digit_run_end(s@, e as int) == digit_run_end(s@, i as int),
        decreases s.len() - e,
    {
        e = e + 1;
    }
    e
}

proof fn lemma_decimal_step(s: Seq<char>, i: int, j: int)
    requires
        i <= j < s.len(),
        is_digit(s[j]),
    ensures
        decimal_value(s, i, j + 1) == decimal_value(s, i, j) * 10 + ((s[j] as u32) - ('0' as u32)),
        decimal_value(s, i, j + 1) >= decimal_value(s, i, j),
{
}

/// The number written by the digits `s[i..e]`, or `None` when it does not fit
/// in a `usize`.
fn parse_decimal(s: &Vec<char>, i: usize, e: usize) -> (r: Option<usize>)
    requires
        i <= e <= s.len(),
        forall|j: int| i <= j < e ==> is_digit(#[trigger] s@[j]),
    ensures
        r == if decimal_value(s@, i as int, e as int) <= usize::MAX {
            Some(decimal_value(s@, i as int, e as int) as usize)
        } else {
            None::<usize>
        },
{
    let mut acc: Option<usize> = Some(0);
    let mut j = i;
    while j < e
        invariant
            i <= j <= e <= s.len(),
            forall|k: int| i <= k < e ==> is_digit(#[trigger] s@[k]),
            acc == if decimal_value(s@, i as int, j as int) <= usize::MAX {
                Some(decimal_value(s@, i as int, j as int) as usize)
            } else {
                None::<usize>
            },
        decreases e - j,
    {
        let d = (s[j] as u32 - '0' as u32) as usize;
        proof {
            assert(is_digit(s@[j as int]));
            lemma_decimal_step(s@, i as int, j as int);
        }
        acc = match acc {
            Some(v) => {
                if v <= (usize::MAX - d) / 10 {
                    assert(v * 10 + d <= usize::MAX) by (nonlinear_arith)
                        requires
                            v <= (usize::MAX - d) / 10,
                            d <= 9,
                    ;
                    Some(v * 10 + d)
                } else {
                    assert(v * 10 + d > usize::MAX) by (nonlinear_arith)
                        requires
                            v > (usize::MAX - d) / 10,
                            d <= 9,
                    ;
                    None
                }
            },
            None => None,
        };
        j = j + 1;
    }
    acc
}

/// The cells of a `coords` text, or `TooLarge` when one lies outside a
/// `rows` by `cols` board.
pub fn parse_coords(s: &Vec<char>, rows: usize, cols: usize) -> (r: Result<Vec<(usize, usize)>, PatternError>)
    ensures
        match r {
            Ok(v) => fits(coord_cells(s@), rows as nat, cols as nat) && nat_pairs(v@) == coord_cells(s@),
            Err(e) => e == PatternError::TooLarge && !fits(coord_cells(s@), rows as nat, cols as nat),
        },
{
    let mut out: Vec<(usize, usize)> = Vec::new();
    let mut i: usize = 0;
    while i < s.len()
        invariant
            i <= s.len(),
            nat_pairs(out@) + pairs_from(s@, i as int, ',') == coord_cells(s@),
            fits(nat_pairs(out@), rows as nat, cols as nat),
        decreases s.len() - i,
    {
        let ghost rest = pairs_from(s@, i as int, ',');
        if '0' <= s[i] && s[i] <= '9' {
            let e = run_end(s, i);
            if e < s.len() && s[e] == ',' && e + 1 < s.len() && '0' <= s[e + 1] && s[e + 1] <= '9' {
                let e2 = run_end(s, e + 1);
                proof {
                    lemma_digit_run_end_bounds(s@, i as int);
                    lemma_digit_run_end_bounds(s@, e + 1);
                    assert(pair_at(s@, i as int, ','));
                }
                let row = parse_decimal(s, i, e);
                let col = parse_decimal(s, e + 1, e2);
                let ghost cell = (decimal_value(s@, i as int, e as int), decimal_value(s@, e + 1, e2 as int));
                assert(rest == seq![cell] + pairs_from(s@, e2 as int, ','));
                match (row, col) {
                    (Some(rv), Some(cv)) => {
                        if rv < rows && cv < cols {
                            proof {
                                assert(nat_pairs(out@.push((rv, cv))) =~= nat_pairs(out@).push(cell));
                                assert(nat_pairs(out@).push(cell) + pairs_from(s@, e2 as int, ',')
                                    =~= nat_pairs(out@) + rest);
                            }
                            out.push((rv, cv));
                            i = e2;
                        } else {
                            proof {
                                assert(rv == cell.0 && cv == cell.1);
                                assert(coord_cells(s@)[nat_pairs(out@).len() as int] == cell);
                                assert(!(cell.0 < rows && cell.1 < cols));
                            }
                            return Err(PatternError::TooLarge);
                        }
                    },
                    _ => {
                        proof {
                            assert(row is None || col is None);
                            assert(cell.0 > usize::MAX || cell.1 > usize::MAX);
                            assert(coord_cells(s@)[nat_pairs(out@).len() as int] == cell);
                            assert(!(cell.0 < rows && cell.1 < cols));
                        }
                        return Err(PatternError::TooLarge);
                    },
                }
            } else {
                i = i + 1;
            }
        } else {
            i = i + 1;
        }
    }
    proof {
        assert(nat_pairs(out@) =~= coord_cells(s@));
    }
    Ok(out)
}

/// A `{dead alive}` glyph pair starts at `i`: two characters other than a
/// line break between braces.
pub open spec fn glyph_pair_at(s: Seq<char>, i: int) -> bool {
    &&& 0 <= i
    &&& i + 3 < s.len()
    &&& s[i] == '{'
    &&& s[i + 1] != '\n'
    &&& s[i + 2] != '\n'
    &&& s[i + 3] == '}'
}

/// The position of the first glyph pair at or after `i`.
pub open spec fn first_glyph_pair_from(s: Seq<char>, i: int) -> Option<int>
    decreases s.len() - i,
{
    if i < 0 || i + 3 >= s.len() {
        None
    } else if glyph_pair_at(s, i) {
        Some(i)
    } else {
        first_glyph_pair_from(s, i + 1)
    }
}

/// The end of the line that holds position `i`: the next line break, or the
/// end of the text.
pub open spec fn line_end(s: Seq<char>, i: int) -> int
    decreases s.len() - i,
{
    if 0 <= i < s.len() && s[i] != '\n' {
        line_end(s, i + 1)
    } else {
        i
    }
}

/// A non-empty line made of the two glyphs only.
pub open spec fn is_glyph_line(line: Seq<char>, dead: char, alive: char) -> bool {
    line.len() > 0 && forall|j: int| 0 <= j < line.len() ==> #[trigger] line[j] == dead || line[j] == alive
}

/// The live cells of a glyph line drawn as pattern row `row`.
pub open spec fn line_cells(line: Seq<char>, row: nat, alive: char) -> Seq<(nat, nat)>
    decreases line.len(),
{
    if line.len() == 0 {
        seq![]
    } else {
        line_cells(line.drop_last(), row, alive) + if line.last() == alive {
            seq![(row, (line.len() - 1) as nat)]
        } else {
            seq![]
        }
    }
}

/// The live cells of the glyph lines from the line starting at `i` on, the
/// first of them drawn as pattern row `row`; other lines are skipped.
pub open spec fn glyph_rows_from(s: Seq<char>, i: int, row: nat, dead: char, alive: char) -> Seq<
    (nat, nat),
>
    decreases s.len() - i,
{
    if i < 0 || i >= s.len() {
        seq![]
    } else {
        let e = line_end(s, i);
        let line = s.subrange(i, e);
        let here = if is_glyph_line(line, dead, alive) {
            line_cells(line, row, alive)
        } else {
            seq![]
        };
        let next_row = if is_glyph_line(line, dead, alive) {
            row + 1
        } else {
            row
        };
        if i <= e < s.len() {
            here + glyph_rows_from(s, e + 1, next_row, dead, alive)
        } else {
            here
        }
    }
}

/// The cells of a `chars` text: the glyph lines that follow the line of its
/// first glyph pair, numbered from 0; `None` without a glyph pair.
pub open spec fn char_cells(s: Seq<char>) -> Option<Seq<(nat, nat)>> {
    match first_glyph_pair_from(s, 0) {
        None => None,
        Some(t) => {
            let e = line_end(s, t + 4);
            if e < s.len() {
                Some(glyph_rows_from(s, e + 1, 0, s[t + 1], s[t + 2]))
            } else {
                Some(seq![])
            }
        },
    }
}

proof fn lemma_line_end_bounds(s: Seq<char>, i: int)
    requires
        0 <= i <= s.len(),
    ensures
        i <= line_end(s, i) <= s.len(),
        line_end(s, i) < s.len() ==> s[line_end(s, i)] == '\n',
    decreases s.len() - i,
{
    if i < s.len() && s[i] != '\n' {
        lemma_line_end_bounds(s, i + 1);
    }
}

/// The end of the line that holds position `i`.
fn find_line_end(s: &Vec<char>, i: usize) -> (e: usize)
    requires
        i <= s.len(),
    ensures
        e as int == line_end(s@, i as int),
        i <= e <= s.len(),
{
    let mut e = i;
    while e < s.len() && s[e] != '\n'
        invariant
            i <= e <= s.len(),
            line_end(s@, e as int) == line_end(s@, i as int),
        decreases s.len() - e,
    {
        e = e + 1;
    }
    e
}

/// The position of the first glyph pair of the text.
fn find_glyph_pair(s: &Vec<char>) -> (r: Option<usize>)
    ensures
        match r {
            Some(t) => first_glyph_pair_from(s@, 0) == Some(t as int) && glyph_pair_at(s@, t as int),
            None => first_glyph_pair_from(s@, 0) is None,
        },
{
    let mut i: usize = 0;
    while i < s.len() && s.len() - i > 3
        invariant
            first_glyph_pair_from(s@, i as int) == first_glyph_pair_from(s@, 0),
        decreases s.len() - i,
    {
        if s[i] == '{' && s[i + 1] != '\n' && s[i + 2] != '\n' && s[i + 3] == '}' {
            return Some(i);
        }
        i = i + 1;
    }
    None
}

/// Whether `s[start..e]` is a glyph line.
fn glyph_line(s: &Vec<char>, start: usize, e: usize, dead: char, alive: char) -> (b: bool)
    requires
        start <= e <= s.len(),
    ensures
        b == is_glyph_line(s@.subrange(start as int, e as int), dead, alive),
{
    let ghost line = s@.subrange(start as int, e as int);
    if start == e {
        return false;
    }
    let mut j = start;
    while j < e
        invariant
            start <= j <= e <= s.len(),
            line == s@.subrange(start as int, e as int),
            forall|k: int| 0 <= k < j - start ==> #[trigger] line[k] == dead || line[k] == alive,
        decreases e - j,
    {
        if s[j] != dead && s[j] != alive {
            assert(line[j - start] == s@[j as int]);
            return false;
        }
        j = j + 1;
    }
    true
}

/// The cells of a `chars` text, or `None` when it holds no glyph pair.
pub fn parse_chars(s: &Vec<char>) -> (r: Option<Vec<(usize, usize)>>)
    ensures
        match r {
            Some(v) => char_cells(s@) == Some(nat_pairs(v@)),
            None => char_cells(s@) is None,
        },
{
    let found = find_glyph_pair(s);
    if found.is_none() {
        return None;
    }
    let t = found.unwrap();
    assert(glyph_pair_at(s@, t as int));
    assert(t + 3 < s@.len());
    assert(s@.len() == s.len());
    let dead = s[t + 1];
    let alive = s[t + 2];
    let mut out: Vec<(usize, usize)> = Vec::new();
    let header_end = find_line_end(s, t + 4);
    if header_end >= s.len() {
        proof {
            assert(nat_pairs(out@) =~= seq![]);
        }
        return Some(out);
    }
    let ghost total = glyph_rows_from(s@, header_end + 1, 0, dead, alive);
    let mut start = header_end + 1;
    let mut row: usize = 0;
    while start < s.len()
        invariant
            start <= s.len(),
            row <= start,
            nat_pairs(out@) + glyph_rows_from(s@, start as int, row as nat, dead, alive) == total,
        decreases s.len() - start,
    {
        let e = find_line_end(s, start);
        let ghost line = s@.subrange(start as int, e as int);
        let ghost base = nat_pairs(out@);
        if glyph_line(s, start, e, dead, alive) {
            let mut j = start;
            while j < e
                invariant
                    start <= j <= e <= s.len(),
                    row <= start,
                    line == s@.subrange(start as int, e as int),
                    nat_pairs(out@) == base + line_cells(
                        s@.subrange(start as int, j as int),
                        row as nat,
                        alive,
                    ),
                decreases e - j,
            {
                proof {
                    let sub = s@.subrange(start as int, j + 1);
                    assert(sub.drop_last() =~= s@.subrange(start as int, j as int));
                    assert(sub.last() == s@[j as int]);
                }
                if s[j] == alive {
                    let col = j - start;
                    proof {
                        assert(nat_pairs(out@.push((row, col))) =~= nat_pairs(out@).push(
                            (row as nat, col as nat),
                        ));
                    }
                    out.push((row, col));
                }
                proof {
                    assert(nat_pairs(out@) =~= base + line_cells(
                        s@.subrange(start as int, j + 1),
                        row as nat,
                        alive,
                    ));
                }
                j = j + 1;
            }
            row = row + 1;
        }
        if e < s.len() {
            start = e + 1;
        } else {
            start = s.len();
        }
    }
    Some(out)
}

/// Whether every cell of the pattern lies on a `rows` by `cols` board.
pub fn pattern_fits(v: &Vec<(usize, usize)>, rows: usize, cols: usize) -> (b: bool)
    ensures
        b == fits(nat_pairs(v@), rows as nat, cols as nat),
{
    let mut i: usize = 0;
    while i < v.len()
        invariant
            i <= v.len(),
            forall|k: int| 0 <= k < i ==> #[trigger] v@[k].0 < rows && v@[k].1 < cols,
        decreases v.len() - i,
    {
        if v[i].0 >= rows || v[i].1 >= cols {
            assert(nat_pairs(v@)[i as int] == (v@[i as int].0 as nat, v@[i as int].1 as nat));
            return false;
        }
        i = i + 1;
    }
    assert forall|k: int| 0 <= k < nat_pairs(v@).len() implies #[trigger] nat_pairs(v@)[k].0 < rows
        && nat_pairs(v@)[k].1 < cols by {
        assert(v@[k].0 < rows);
    }
    true
}

/// The pattern-local cells that a text describes, by its format.
pub open spec fn pattern_cells(s: Seq<char>) -> Result<Seq<(nat, nat)>, PatternError> {
    match format_of(s) {
        None => Err(PatternError::UnknownFormat),
        Some(PatternFormat::Chars) => match char_cells(s) {
            None => Err(PatternError::MissingGlyphs),
            Some(p) => Ok(p),
        },
        Some(PatternFormat::Coords) => Ok(coord_cells(s)),
    }
}

/// Every row of the pattern is at most its largest row, and likewise for
/// columns; on a board that holds the pattern, the largest row and column lie
/// on it.
pub proof fn lemma_max_bounds(p: Seq<(nat, nat)>, rows: nat, cols: nat)
    ensures
        forall|i: int| 0 <= i < p.len() ==> #[trigger] p[i].0 <= max_row(p) && p[i].1 <= max_col(p),
        fits(p, rows, cols) && p.len() > 0 ==> max_row(p) < rows && max_col(p) < cols,
    decreases p.len(),
{
    if p.len() > 0 {
        let q = p.drop_last();
        lemma_max_bounds(q, rows, cols);
        assert forall|i: int| 0 <= i < p.len() implies #[trigger] p[i].0 <= max_row(p) && p[i].1
            <= max_col(p) by {
            if i < q.len() {
                assert(q[i] == p[i]);
            }
        }
        if fits(p, rows, cols) {
            assert(p[p.len() - 1] == p.last());
            assert forall|i: int| 0 <= i < q.len() implies #[trigger] q[i].0 < rows && q[i].1 < cols by {
                assert(q[i] == p[i]);
            }
        }
    }
}

/// The format that the first word of the text selects.
pub fn pattern_format(s: &Vec<char>) -> (r: Option<PatternFormat>)
    ensures
        r == format_of(s@),
{
    let chars_word = s.len() >= 5 && s[0] == 'c' && s[1] == 'h' && s[2] == 'a' && s[3] == 'r'
        && s[4] == 's';
    if chars_word {
        assert(s@.take(5) =~= seq!['c', 'h', 'a', 'r', 's']);
        return Some(PatternFormat::Chars);
    }
    assert(!starts_with(s@, seq!['c', 'h', 'a', 'r', 's'])) by {
        if starts_with(s@, seq!['c', 'h', 'a', 'r', 's']) {
            assert(s@.take(5)[1] == s@[1]);
            assert(s@.take(5)[2] == s@[2]);
            assert(s@.take(5)[3] == s@[3]);
            assert(s@.take(5)[4] == s@[4]);
            assert(s@.take(5)[0] == s@[0]);
        }
    }
    let coords_word = s.len() >= 6 && s[0] == 'c' && s[1] == 'o' && s[2] == 'o' && s[3] == 'r'
        && s[4] == 'd' && s[5] == 's';
    if coords_word {
        assert(s@.take(6) =~= seq!['c', 'o', 'o', 'r', 'd', 's']);
        return Some(PatternFormat::Coords);
    }
    assert(!starts_with(s@, seq!['c', 'o', 'o', 'r', 'd', 's'])) by {
        if starts_with(s@, seq!['c', 'o', 'o', 'r', 'd', 's']) {
            assert(s@.take(6)[0] == s@[0]);
            assert(s@.take(6)[1] == s@[1]);
            assert(s@.take(6)[2] == s@[2]);
            assert(s@.take(6)[3] == s@[3]);
            assert(s@.take(6)[4] == s@[4]);
            assert(s@.take(6)[5] == s@[5]);
        }
    }
    None
}

/// The board size written as `{rows}x{cols}`, anywhere in the text; `None`
/// when there is none, or when a number does not fit in a `usize`.
pub fn parse_dimensions(s: &Vec<char>) -> (r: Option<(usize, usize)>)
    ensures
        r == match dimensions_of(s@) {
            Some(d) => if d.0 <= usize::MAX && d.1 <= usize::MAX {
                Some((d.0 as usize, d.1 as usize))
            } else {
                None::<(usize, usize)>
            },
            None => None::<(usize, usize)>,
        },
{
    let mut i: usize = 0;
    while i < s.len()
        invariant
            i <= s.len(),
            pairs_from(s@, i as int, 'x') == pairs_from(s@, 0, 'x'),
        decreases s.len() - i,
    {
        if '0' <= s[i] && s[i] <= '9' {
            let e = run_end(s, i);
            if e < s.len() && s[e] == 'x' && e + 1 < s.len() && '0' <= s[e + 1] && s[e + 1] <= '9' {
                let e2 = run_end(s, e + 1);
                proof {
                    lemma_digit_run_end_bounds(s@, i as int);
                    lemma_digit_run_end_bounds(s@, e + 1);
                    assert(pair_at(s@, i as int, 'x'));
                }
                let rows = parse_decimal(s, i, e);
                let cols = parse_decimal(s, e + 1, e2);
                return match (rows, cols) {
                    (Some(rv), Some(cv)) => Some((rv, cv)),
                    _ => None,
                };
            }
        }
        i = i + 1;
    }
    None
}

/// The characters of `text`, in order.
pub fn chars_of(text: &str) -> (v: Vec<char>)
    ensures
        v@ == text@,
{
    let mut v: Vec<char> = Vec::new();
    for ch in it: text.chars()
        invariant
            v@ == it.seq().take(it.index()),
            it.seq() == text@,
    {
        v.push(ch);
        proof {
            assert(v@ =~= it.seq().take(it.index() + 1));
        }
    }
    v
}

} // verus!
