use vstd::prelude::*;

verus! {

/// A range of positions in a line of text: from `start` up to, not
/// including, `end`.
#[derive(Clone, Copy, Debug, PartialEq, Eq, Structural)]
pub struct Span {
    pub start: usize,
    pub end: usize,
}

/// What a line of mesh text says.
#[derive(Clone, Debug, PartialEq, Eq)]
pub enum Record {
    /// Nothing: a blank line, a comment, or a record of another kind.
    Ignored,
    /// A vertex: where in the line its three coordinates are written.
    Vertex { x: Span, y: Span, z: Span },
    /// A face: the ids of its vertices, counted from zero.
    Face { vertex_ids: Vec<usize> },
}

/// The mathematical content of a [`Record`].
pub enum RecordView {
    Ignored,
    Vertex { x: Span, y: Span, z: Span },
    Face { vertex_ids: Seq<usize> },
}

impl View for Record {
    type V = RecordView;

    open spec fn view(&self) -> RecordView {
        match *self {
            Record::Ignored => RecordView::Ignored,
            Record::Vertex { x, y, z } => RecordView::Vertex { x, y, z },
            Record::Face { vertex_ids } => RecordView::Face { vertex_ids: vertex_ids@ },
        }
    }
}

/// Why a line of mesh text is refused. `token` counts the tokens of the line
/// from zero, the keyword being token zero.
#[derive(Clone, Copy, Debug, PartialEq, Eq, Structural)]
pub enum ParseError {
    /// A vertex record with fewer than three coordinates.
    ShortVertex,
    /// A face record with fewer than three vertex indices.
    ShortFace,
    /// A vertex index that is not a number.
    InvalidIndex { token: usize },
    /// A vertex index that is zero or beyond the vertices declared so far.
    IndexOutOfRange { token: usize },
}

/// Unicode white space.
pub open spec fn is_space(c: char) -> bool {
    let u = c as u32;
    (9 <= u <= 13) || u == 0x20 || u == 0x85 || u == 0xA0 || u == 0x1680 || (0x2000 <= u
        <= 0x200A) || u == 0x2028 || u == 0x2029 || u == 0x202F || u == 0x205F || u == 0x3000
}

/// A token ends just before position `e`: the character before is no white
/// space, and the line ends there or white space follows.
pub open spec fn ends_at(line: Seq<char>, e: int) -> bool {
    0 < e <= line.len() && !is_space(line[e - 1]) && (e == line.len() || is_space(line[e]))
}

/// Where the run of characters other than white space that reaches up to
/// position `e` begins.
pub open spec fn run_start(line: Seq<char>, e: int) -> int
    decreases e,
{
    if e <= 0 || e > line.len() || is_space(line[e - 1]) {
        e
    } else {
        run_start(line, e - 1)
    }
}

/// The tokens that end within the first `i` positions of the line, in order.
pub open spec fn tokens_upto(line: Seq<char>, i: int) -> Seq<Span>
    decreases i,
{
    if i <= 0 {
        Seq::empty()
    } else {
        let before = tokens_upto(line, i - 1);
        if ends_at(line, i) {
            before.push(Span { start: run_start(line, i) as usize, end: i as usize })
        } else {
            before
        }
    }
}

/// The tokens of a line: its maximal runs of characters other than white
/// space, in order.
pub open spec fn tokens(line: Seq<char>) -> Seq<Span> {
    tokens_upto(line, line.len() as int)
}

/// The text of a token.
pub open spec fn token_text(line: Seq<char>, span: Span) -> Seq<char> {
    line.subrange(span.start as int, span.end as int)
}

/// The position of the first `/` at or after `from`, or the length of the
/// token where there is none.
pub open spec fn first_slash(tok: Seq<char>, from: int) -> int
    decreases tok.len() - from,
{
    if from < 0 || from >= tok.len() {
        tok.len() as int
    } else if tok[from] == '/' {
        from
    } else {
        first_slash(tok, from + 1)
    }
}

/// The part of a face token that names the vertex: what stands before the
/// first `/`.
pub open spec fn index_text(tok: Seq<char>) -> Seq<char> {
    tok.take(first_slash(tok, 0))
}

/// An ASCII decimal digit.
pub open spec fn is_digit(c: char) -> bool {
    48 <= c as u32 <= 57
}

/// The number that a sequence of decimal digits writes.
pub open spec fn decimal(digits: Seq<char>) -> nat
    decreases digits.len(),
{
    if digits.len() == 0 {
        0
    } else {
        (decimal(digits.drop_last()) * 10 + (digits.last() as u32 - 48)) as nat
    }
}

/// The digits of an index: the text without an optional leading `+`.
pub open spec fn digits_of(text: Seq<char>) -> Seq<char> {
    if text.len() > 0 && text[0] == '+' {
        text.skip(1)
    } else {
        text
    }
}

/// The number that a text writes: an optional `+`, then one or more decimal
/// digits and nothing else, the number being one that the machine can hold.
pub open spec fn parse_index(text: Seq<char>) -> Option<usize> {
    let digits = digits_of(text);
    if digits.len() > 0 && (forall|k: int| 0 <= k < digits.len() ==> is_digit(#[trigger] digits[k]))
        && decimal(digits) <= usize::MAX {
        Some(decimal(digits) as usize)
    } else {
        None
    }
}

/// The vertex ids that the tokens `1 .. upto` of a face record name, or the
/// error of the first token that names none: indices count from one and must
/// not exceed `vertex_count`.
pub open spec fn face_ids(line: Seq<char>, spans: Seq<Span>, vertex_count: usize, upto: int) -> Result<
    Seq<usize>,
    ParseError,
>
    decreases upto,
{
    if upto <= 1 {
        Ok(Seq::empty())
    } else {
        match face_ids(line, spans, vertex_count, upto - 1) {
            Err(e) => Err(e),
            Ok(ids) => match parse_index(index_text(token_text(line, spans[upto - 1]))) {
                None => Err(ParseError::InvalidIndex { token: (upto - 1) as usize }),
                Some(index) => if index == 0 || index > vertex_count {
                    Err(ParseError::IndexOutOfRange { token: (upto - 1) as usize })
                } else {
                    Ok(ids.push((index - 1) as usize))
                },
            },
        }
    }
}

/// What a line says, given the number of vertices declared before it.
///
/// The keyword is the first token. `v` declares a vertex by three
/// coordinates; further tokens are ignored. `f` declares a face by three or
/// more vertex indices. Every other line, a comment among them, says nothing.
pub open spec fn record_of(line: Seq<char>, vertex_count: usize) -> Result<RecordView, ParseError> {
    let spans = tokens(line);
    if spans.len() == 0 {
        Ok(RecordView::Ignored)
    } else if token_text(line, spans[0]) == seq!['v'] {
        if spans.len() < 4 {
            Err(ParseError::ShortVertex)
        } else {
            Ok(RecordView::Vertex { x: spans[1], y: spans[2], z: spans[3] })
        }
    } else if token_text(line, spans[0]) == seq!['f'] {
        if spans.len() < 4 {
            Err(ParseError::ShortFace)
        } else {
            match face_ids(line, spans, vertex_count, spans.len() as int) {
                Ok(ids) => Ok(RecordView::Face { vertex_ids: ids }),
                Err(e) => Err(e),
            }
        }
    } else {
        Ok(RecordView::Ignored)
    }
}

/// A run reaches back at most to the start of the line.
pub proof fn lemma_run_start(line: Seq<char>, e: int)
    requires
        0 <= e <= line.len(),
    ensures
        0 <= run_start(line, e) <= e,
        e > 0 && !is_space(line[e - 1]) ==> run_start(line, e) < e,
    decreases e,
{
    if e > 0 && !is_space(line[e - 1]) {
        lemma_run_start(line, e - 1);
    }
}

/// The range `s .. e` is a maximal run of characters other than white space.
pub open spec fn is_run(line: Seq<char>, s: int, e: int) -> bool {
    &&& 0 <= s < e <= line.len()
    &&& forall|k: int| s <= k < e ==> !is_space(#[trigger] line[k])
    &&& s == 0 || is_space(line[s - 1])
    &&& e == line.len() || is_space(line[e])
}

/// Position `k` lies in one of the spans.
pub open spec fn covered(spans: Seq<Span>, k: int) -> bool {
    exists|t: int| 0 <= t < spans.len() && (#[trigger] spans[t]).start <= k < spans[t].end
}

/// From where a run begins up to where it was asked for there is no white
/// space, and white space or the start of the line stands before it.
pub proof fn lemma_run_shape(line: Seq<char>, e: int)
    requires
        0 <= e <= line.len(),
    ensures
        forall|k: int| run_start(line, e) <= k < e ==> !is_space(#[trigger] line[k]),
        run_start(line, e) == 0 || is_space(line[run_start(line, e) - 1]),
        forall|w: int| 0 <= w < e && is_space(#[trigger] line[w]) ==> w < run_start(line, e),
    decreases e,
{
    lemma_run_start(line, e);
    if e > 0 && !is_space(line[e - 1]) {
        lemma_run_shape(line, e - 1);
        lemma_run_start(line, e - 1);
    }
}

/// The tokens that end within the first `i` positions are maximal runs, in
/// order and apart, and cover every character other than white space before
/// the run that is open at `i`.
pub proof fn lemma_tokens_upto_are_runs(line: Seq<char>, i: int)
    requires
        0 <= i <= line.len(),
        line.len() <= usize::MAX,
    ensures
        forall|t: int|
            0 <= t < tokens_upto(line, i).len() ==> is_run(
                line,
                (#[trigger] tokens_upto(line, i)[t]).start as int,
                tokens_upto(line, i)[t].end as int,
            ) && tokens_upto(line, i)[t].end <= i,
        forall|s: int, t: int|
            0 <= s < t < tokens_upto(line, i).len() ==> (#[trigger] tokens_upto(line, i)[s]).end < (
            #[trigger] tokens_upto(line, i)[t]).start,
        forall|k: int|
            0 <= k < line.len() && !is_space(line[k]) && (k < run_start(line, i) || (k < i
                && ends_at(line, i))) ==> #[trigger] covered(tokens_upto(line, i), k),
    decreases i,
{
    if i > 0 {
        let before = tokens_upto(line, i - 1);
        let now = tokens_upto(line, i);
        lemma_tokens_upto_are_runs(line, i - 1);
        lemma_run_shape(line, i);
        lemma_run_shape(line, i - 1);
        lemma_run_start(line, i);
        lemma_run_start(line, i - 1);
        let start = run_start(line, i);
        assert forall|t: int| 0 <= t < now.len() implies is_run(
            line,
            (#[trigger] now[t]).start as int,
            now[t].end as int,
        ) && now[t].end <= i by {
            if t < before.len() {
                assert(now[t] == before[t]);
            }
        }
        assert forall|s: int, t: int| 0 <= s < t < now.len() implies (#[trigger] now[s]).end < (
        #[trigger] now[t]).start by {
            assert(now[s] == before[s]);
            if t < before.len() {
                assert(now[t] == before[t]);
            } else {
                let e = before[s].end as int;
                assert(is_run(line, before[s].start as int, e));
                assert(is_space(line[e]));
            }
        }
        assert forall|k: int|
            0 <= k < line.len() && !is_space(line[k]) && (k < start || (k < i && ends_at(
                line,
                i,
            ))) implies #[trigger] covered(now, k) by {
            if ends_at(line, i) && start <= k {
                assert(now[now.len() - 1].start <= k < now[now.len() - 1].end);
            } else {
                if is_space(line[i - 1]) {
                    assert(k < run_start(line, i - 1) || (k < i - 1 && ends_at(line, i - 1)));
                } else {
                    assert(k < run_start(line, i - 1));
                }
                assert(covered(before, k));
                let t = choose|t: int|
                    0 <= t < before.len() && (#[trigger] before[t]).start <= k < before[t].end;
                assert(now[t] == before[t]);
            }
        }
    }
}

/// The tokens of a line are its maximal runs of characters other than white
/// space: each token is such a run, the tokens stand in order and apart, and
/// every character other than white space lies in one of them.
pub proof fn lemma_tokens_are_runs(line: Seq<char>)
    requires
        line.len() <= usize::MAX,
    ensures
        forall|t: int|
            0 <= t < tokens(line).len() ==> is_run(
                line,
                (#[trigger] tokens(line)[t]).start as int,
                tokens(line)[t].end as int,
            ),
        forall|s: int, t: int|
            0 <= s < t < tokens(line).len() ==> (#[trigger] tokens(line)[s]).end < (
            #[trigger] tokens(line)[t]).start,
        forall|k: int|
            0 <= k < line.len() && !is_space(line[k]) ==> #[trigger] covered(tokens(line), k),
{
    let n = line.len() as int;
    lemma_tokens_upto_are_runs(line, n);
    lemma_run_shape(line, n);
    assert forall|k: int| 0 <= k < n && !is_space(line[k]) implies #[trigger] covered(
        tokens(line),
        k,
    ) by {
        if !(k < run_start(line, n)) {
            assert(!is_space(line[n - 1]));
            assert(ends_at(line, n));
        }
    }
}

/// Every token is a non-empty range of the line.
pub proof fn lemma_tokens_in_range(line: Seq<char>, i: int)
    requires
        0 <= i <= line.len(),
        line.len() <= usize::MAX,
    ensures
        forall|t: int|
            0 <= t < tokens_upto(line, i).len() ==> (#[trigger] tokens_upto(line, i)[t]).start
                < tokens_upto(line, i)[t].end <= i,
    decreases i,
{
    if i > 0 {
        lemma_tokens_in_range(line, i - 1);
        lemma_run_start(line, i);
        let before = tokens_upto(line, i - 1);
        let now = tokens_upto(line, i);
        assert forall|t: int| 0 <= t < now.len() implies (#[trigger] now[t]).start < now[t].end
            <= i by {
            if t < before.len() {
                assert(now[t] == before[t]);
            }
        }
    }
}

/// A face record that fails at one token fails in the same way whatever
/// follows.
pub proof fn lemma_face_ids_error(
    line: Seq<char>,
    spans: Seq<Span>,
    vertex_count: usize,
    upto: int,
    later: int,
)
    requires
        upto <= later,
        face_ids(line, spans, vertex_count, upto) is Err,
    ensures
        face_ids(line, spans, vertex_count, later) == face_ids(line, spans, vertex_count, upto),
    decreases later - upto,
{
    if upto < later {
        lemma_face_ids_error(line, spans, vertex_count, upto, later - 1);
    }
}

/// A number written with more digits is not smaller.
pub proof fn lemma_decimal_prefix(digits: Seq<char>, k: int)
    requires
        0 <= k <= digits.len(),
        forall|j: int| 0 <= j < digits.len() ==> is_digit(#[trigger] digits[j]),
    ensures
        decimal(digits.take(k)) <= decimal(digits),
    decreases digits.len() - k,
{
    if k < digits.len() {
        lemma_decimal_prefix(digits, k + 1);
        assert(digits.take(k + 1).drop_last() =~= digits.take(k));
        assert(is_digit(digits[k]));
    } else {
        assert(digits.take(k) =~= digits);
    }
}

/// A face record that is accepted names one existing vertex for each token
/// after the keyword.
pub proof fn lemma_face_ids_valid(
    line: Seq<char>,
    spans: Seq<Span>,
    vertex_count: usize,
    upto: int,
)
    requires
        upto >= 1,
        face_ids(line, spans, vertex_count, upto) is Ok,
    ensures
        face_ids(line, spans, vertex_count, upto)->Ok_0.len() == upto - 1,
        forall|k: int|
            0 <= k < upto - 1 ==> (#[trigger] face_ids(line, spans, vertex_count, upto)->Ok_0[k])
                < vertex_count,
    decreases upto,
{
    if upto > 1 {
        lemma_face_ids_valid(line, spans, vertex_count, upto - 1);
    }
}

/// A face read from a line has three or more vertices, all of them declared
/// before the line.
pub proof fn lemma_face_record_valid(line: Seq<char>, vertex_count: usize)
    ensures
        match record_of(line, vertex_count) {
            Ok(RecordView::Face { vertex_ids }) => {
                &&& vertex_ids.len() >= 3
                &&& vertex_ids.len() == tokens(line).len() - 1
                &&& forall|k: int|
                    0 <= k < vertex_ids.len() ==> (#[trigger] vertex_ids[k]) < vertex_count
            },
            _ => true,
        },
{
    let spans = tokens(line);
    if spans.len() >= 4 && face_ids(line, spans, vertex_count, spans.len() as int) is Ok {
        lemma_face_ids_valid(line, spans, vertex_count, spans.len() as int);
    }
}

/// Whether `c` is Unicode white space.
pub fn is_whitespace(c: char) -> (space: bool)
    ensures
        space == is_space(c),
{
    let u: u32 = c as u32;
    (9 <= u && u <= 13) || u == 0x20 || u == 0x85 || u == 0xA0 || u == 0x1680 || (0x2000 <= u && u
        <= 0x200A) || u == 0x2028 || u == 0x2029 || u == 0x202F || u == 0x205F || u == 0x3000
}

/// Split a line into its tokens.
pub fn split_tokens(line: &Vec<char>) -> (spans: Vec<Span>)
    ensures
        spans@ == tokens(line@),
        forall|t: int| 0 <= t < spans@.len() ==> (#[trigger] spans@[t]).start < spans@[t].end <= line@.len(),
{
    let n: usize = line.len();
    let mut spans: Vec<Span> = Vec::new();
    let mut start: usize = 0;
    let mut i: usize = 0;
    while i < n
        invariant
            i <= n,
            n == line@.len(),
            start == run_start(line@, i as int),
            spans@ == tokens_upto(line@, i as int),
        decreases n - i,
    {
        if is_whitespace(line[i]) {
            start = i + 1;
        } else {
            let closes: bool = if i + 1 == n {
                true
            } else {
                is_whitespace(line[i + 1])
            };
            if closes {
                spans.push(Span { start, end: i + 1 });
            }
        }
        i += 1;
    }
    proof {
        lemma_tokens_in_range(line@, n as int);
    }
    spans
}

/// The number that the characters `from .. until` of a token write as a
/// vertex index, if they write one.
fn read_index(line: &Vec<char>, from: usize, until: usize) -> (index: Option<usize>)
    requires
        from <= until <= line@.len(),
    ensures
        index == parse_index(index_text(line@.subrange(from as int, until as int))),
{
    let ghost tok = line@.subrange(from as int, until as int);
    let mut stop: usize = from;
    while stop < until && line[stop] != '/'
        invariant
            from <= stop <= until,
            until <= line@.len(),
            tok == line@.subrange(from as int, until as int),
            first_slash(tok, 0) == first_slash(tok, stop - from),
        decreases until - stop,
    {
        assert(tok[stop - from] == line@[stop as int]);
        stop += 1;
    }
    proof {
        if stop < until {
            assert(tok[stop - from] == line@[stop as int]);
        }
        assert(first_slash(tok, 0) == stop - from);
    }
    let ghost text = index_text(tok);
    assert(text =~= line@.subrange(from as int, stop as int));
    let mut k: usize = from;
    if k < stop && line[k] == '+' {
        k += 1;
    }
    let first: usize = k;
    let ghost digits = digits_of(text);
    assert(digits =~= line@.subrange(first as int, stop as int));
    if first == stop {
        return None;
    }
    let mut value: usize = 0;
    while k < stop
        invariant
            first <= k <= stop,
            first < stop,
            from <= until <= line@.len(),
            stop <= line@.len(),
            text == index_text(line@.subrange(from as int, until as int)),
            digits == digits_of(text),
            digits == line@.subrange(first as int, stop as int),
            forall|j: int| 0 <= j < k - first ==> is_digit(#[trigger] digits[j]),
            value == decimal(digits.take(k - first)),
        decreases stop - k,
    {
        let u: u32 = line[k] as u32;
        assert(digits[k - first] == line@[k as int]);
        assert(digits.take(k - first + 1).drop_last() =~= digits.take(k - first));
        if u < 48 || u > 57 {
            assert(!is_digit(digits[k - first]));
            return None;
        }
        let d: usize = (u - 48) as usize;
        let scaled = value.checked_mul(10);
        let next = match scaled {
            None => None,
            Some(s) => s.checked_add(d),
        };
        match next {
            None => {
                proof {
                    assert(decimal(digits.take(k - first + 1)) == value * 10 + d);
                    assert(value * 10 + d > usize::MAX);
                    if forall|j: int| 0 <= j < digits.len() ==> is_digit(#[trigger] digits[j]) {
                        lemma_decimal_prefix(digits, k - first + 1);
                    }
                }
                return None;
            },
            Some(v) => {
                value = v;
            },
        }
        k += 1;
    }
    assert(digits.take(stop - first) =~= digits);
    Some(value)
}

/// Read one line of mesh text, `vertex_count` vertices having been declared
/// before it.
pub fn parse_line(line: &Vec<char>, vertex_count: usize) -> (result: Result<Record, ParseError>)
    ensures
        match result {
            Ok(record) => record_of(line@, vertex_count) == Ok::<RecordView, ParseError>(record@),
            Err(e) => record_of(line@, vertex_count) == Err::<RecordView, ParseError>(e),
        },
{
    let spans = split_tokens(line);
    if spans.len() == 0 {
        return Ok(Record::Ignored);
    }
    let keyword: Span = spans[0];
    let letter: char = line[keyword.start];
    let single: bool = keyword.end - keyword.start == 1;
    let ghost text = token_text(line@, keyword);
    assert(text.len() == keyword.end - keyword.start);
    assert(text[0] == letter);
    if single && letter == 'v' {
        assert(text =~= seq!['v']);
        if spans.len() < 4 {
            Err(ParseError::ShortVertex)
        } else {
            Ok(Record::Vertex { x: spans[1], y: spans[2], z: spans[3] })
        }
    } else if single && letter == 'f' {
        assert(text =~= seq!['f']);
        assert(seq!['f'][0] != seq!['v'][0]);
        if spans.len() < 4 {
            return Err(ParseError::ShortFace);
        }
        let mut ids: Vec<usize> = Vec::new();
        let mut t: usize = 1;
        while t < spans.len()
            invariant
                1 <= t <= spans@.len(),
                spans@.len() >= 4,
                spans@ == tokens(line@),
                token_text(line@, spans@[0]) == seq!['f'],
                seq!['f'] != seq!['v'],
                forall|j: int|
                    0 <= j < spans@.len() ==> (#[trigger] spans@[j]).start < spans@[j].end
                        <= line@.len(),
                face_ids(line@, spans@, vertex_count, t as int) == Ok::<Seq<usize>, ParseError>(
                    ids@,
                ),
            decreases spans@.len() - t,
        {
            let span: Span = spans[t];
            match read_index(line, span.start, span.end) {
                None => {
                    proof {
                        lemma_face_ids_error(line@, spans@, vertex_count, t + 1, spans@.len() as int);
                    }
                    return Err(ParseError::InvalidIndex { token: t });
                },
                Some(index) => {
                    if index == 0 || index > vertex_count {
                        proof {
                            lemma_face_ids_error(
                                line@,
                                spans@,
                                vertex_count,
                                t + 1,
                                spans@.len() as int,
                            );
                        }
                        return Err(ParseError::IndexOutOfRange { token: t });
                    }
                    ids.push(index - 1);
                },
            }
            t += 1;
        }
        Ok(Record::Face { vertex_ids: ids })
    } else {
        proof {
            if text == seq!['v'] {
                assert(seq!['v'].len() == 1 && seq!['v'][0] == 'v');
            }
            if text == seq!['f'] {
                assert(seq!['f'].len() == 1 && seq!['f'][0] == 'f');
            }
        }
        Ok(Record::Ignored)
    }
}

/// What the lines of a mesh text say, up to the first line that is refused.
#[derive(Clone, Debug, PartialEq, Eq)]
pub struct Records {
    /// One record for each line read, in order.
    pub records: Vec<Record>,
    /// Why the line after those was refused, if one was.
    pub error: Option<ParseError>,
}

/// The views of a sequence of records.
pub open spec fn record_views(records: Seq<Record>) -> Seq<RecordView> {
    records.map_values(|r: Record| r@)
}

/// The texts of a sequence of lines.
pub open spec fn line_texts(lines: Seq<Vec<char>>) -> Seq<Seq<char>> {
    lines.map_values(|l: Vec<char>| l@)
}

/// The number of vertex records among the records.
pub open spec fn count_vertices(records: Seq<RecordView>) -> nat
    decreases records.len(),
{
    if records.len() == 0 {
        0
    } else {
        count_vertices(records.drop_last()) + (if records.last() is Vertex {
            1nat
        } else {
            0nat
        })
    }
}

/// `records` are what the first lines say, each line read with the number of
/// vertices that the lines before it declare.
pub open spec fn reads_as(lines: Seq<Seq<char>>, records: Seq<RecordView>) -> bool {
    &&& records.len() <= lines.len()
    &&& forall|i: int|
        0 <= i < records.len() ==> record_of(
            lines[i],
            count_vertices(records.take(i)) as usize,
        ) == Ok::<RecordView, ParseError>(#[trigger] records[i])
}

/// There are no more vertex records than records.
pub proof fn lemma_count_vertices(records: Seq<RecordView>)
    ensures
        count_vertices(records) <= records.len(),
    decreases records.len(),
{
    if records.len() > 0 {
        lemma_count_vertices(records.drop_last());
    }
}

/// Longer texts declare no fewer vertices.
pub proof fn lemma_count_vertices_grows(records: Seq<RecordView>, i: int)
    requires
        0 <= i <= records.len(),
    ensures
        count_vertices(records.take(i)) <= count_vertices(records),
    decreases records.len() - i,
{
    if i < records.len() {
        lemma_count_vertices_grows(records, i + 1);
        assert(records.take(i + 1).drop_last() =~= records.take(i));
    } else {
        assert(records.take(i) =~= records);
    }
}

/// Every face that was read has three or more vertices, each of them one of
/// the vertices that were read: a mesh built from the records is well formed.
pub proof fn lemma_faces_refer_to_vertices(lines: Seq<Seq<char>>, records: Seq<RecordView>, i: int)
    requires
        reads_as(lines, records),
        records.len() <= usize::MAX,
        0 <= i < records.len(),
        records[i] is Face,
    ensures
        records[i]->vertex_ids.len() >= 3,
        forall|k: int|
            0 <= k < records[i]->vertex_ids.len() ==> (#[trigger] records[i]->vertex_ids[k])
                < count_vertices(records),
{
    lemma_count_vertices(records.take(i));
    lemma_count_vertices_grows(records, i);
    lemma_face_record_valid(lines[i], count_vertices(records.take(i)) as usize);
}

/// Read the lines of a mesh text in order. Vertices are numbered as they are
/// declared, and a face may name only vertices declared on earlier lines.
/// Reading stops at the first line that is refused; the number of that line,
/// counted from zero, is the number of records returned.
pub fn parse_lines(lines: &Vec<Vec<char>>) -> (out: Records)
    ensures
        reads_as(line_texts(lines@), record_views(out.records@)),
        match out.error {
            None => out.records@.len() == lines@.len(),
            Some(e) => {
                &&& out.records@.len() < lines@.len()
                &&& record_of(
                    lines@[out.records@.len() as int]@,
                    count_vertices(record_views(out.records@)) as usize,
                ) == Err::<RecordView, ParseError>(e)
            },
        },
{
    let ghost texts = line_texts(lines@);
    let mut records: Vec<Record> = Vec::new();
    let mut declared: usize = 0;
    let mut i: usize = 0;
    while i < lines.len()
        invariant
            i <= lines@.len(),
            texts == line_texts(lines@),
            records@.len() == i,
            declared == count_vertices(record_views(records@)),
            reads_as(texts, record_views(records@)),
        decreases lines@.len() - i,
    {
        let ghost before = record_views(records@);
        proof {
            lemma_count_vertices(before);
        }
        match parse_line(&lines[i], declared) {
            Err(e) => {
                return Records { records, error: Some(e) };
            },
            Ok(record) => {
                let is_vertex: bool = match record {
                    Record::Vertex { .. } => true,
                    _ => false,
                };
                records.push(record);
                proof {
                    let now = record_views(records@);
                    assert(now =~= before.push(record@));
                    assert(now.drop_last() =~= before);
                    assert forall|j: int| 0 <= j < now.len() implies record_of(
                        texts[j],
                        count_vertices(now.take(j)) as usize,
                    ) == Ok::<RecordView, ParseError>(#[trigger] now[j]) by {
                        if j < before.len() {
                            assert(now.take(j) =~= before.take(j));
                            assert(now[j] == before[j]);
                        } else {
                            assert(now.take(j) =~= before);
                        }
                    }
                }
                if is_vertex {
                    declared += 1;
                }
            },
        }
        i += 1;
    }
    Records { records, error: None }
}

} // verus!
