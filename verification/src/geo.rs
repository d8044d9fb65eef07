//! Where places are: the stations, the prefectures, and the markers of a map.

use vstd::prelude::*;
use vstd::utf8::*;

use crate::intensity::{
    display_pref, eew_area_scale, forecast_scale, full_name, normalize_pref, pref_key,
};
use crate::model::{EewArea, Point};
use crate::reading::Real;
use crate::text::{
    begins, begins_with, chars_of, code_point, comes_before, contains_text, is_white,
    lemma_precedes_irreflexive, lemma_precedes_transitive, lemma_precedes_trichotomy, occurs,
    precedes, same, text_of, white,
};
use crate::tracker::{keys, lemma_position, position};

verus! {

/// A station that observes intensities.
#[derive(Debug)]
pub struct ObservationStation {
    pub pref: String,
    pub name: String,
    pub latitude: Real,
    pub longitude: Real,
}

/// One line of the list of stations, not yet read as numbers.
#[derive(Debug)]
pub struct StationRow {
    pub pref: String,
    pub name: String,
    pub latitude: String,
    pub longitude: String,
}

/// What the four columns hold.
pub type Columns = (Seq<char>, Seq<char>, Seq<char>, Seq<char>);

impl StationRow {
    /// What the four columns hold.
    pub open spec fn columns(self) -> Columns {
        (self.pref@, self.name@, self.latitude@, self.longitude@)
    }
}

/// What the columns of a list hold.
pub open spec fn all_columns(rows: Seq<StationRow>) -> Seq<Columns> {
    Seq::new(rows.len(), |i: int| rows[i].columns())
}

/// The pieces of a text between the occurrences of a character.
pub open spec fn pieces(s: Seq<char>, sep: char) -> Seq<Seq<char>>
    decreases s.len(),
{
    if s.len() == 0 {
        seq![Seq::empty()]
    } else {
        let before = pieces(s.drop_last(), sep);
        if s.last() == sep {
            before.push(Seq::empty())
        } else {
            before.update(before.len() - 1, before.last().push(s.last()))
        }
    }
}

/// There is always a piece.
proof fn lemma_pieces(s: Seq<char>, sep: char)
    ensures
        pieces(s, sep).len() > 0,
    decreases s.len(),
{
    if s.len() > 0 {
        lemma_pieces(s.drop_last(), sep);
    }
}

/// What lists of characters hold.
pub open spec fn unrolled(list: Seq<Vec<char>>) -> Seq<Seq<char>> {
    Seq::new(list.len(), |i: int| list[i]@)
}

/// Cuts a text at every occurrence of a character.
pub fn split(s: &[char], sep: char) -> (r: Vec<Vec<char>>)
    ensures
        unrolled(r@) == pieces(s@, sep),
{
    let mut out: Vec<Vec<char>> = Vec::new();
    out.push(Vec::new());
    assert(unrolled(out@) =~= seq![Seq::<char>::empty()]);
    for i in 0..s.len()
        invariant
            unrolled(out@) == pieces(s@.take(i as int), sep),
    {
        proof {
            assert(s@.take(i + 1).drop_last() =~= s@.take(i as int));
            lemma_pieces(s@.take(i as int), sep);
        }
        let ghost before = unrolled(out@);
        assert(out@.len() == before.len());
        if s[i] == sep {
            let fresh: Vec<char> = Vec::new();
            out.push(fresh);
            assert(unrolled(out@) =~= before.push(Seq::empty()));
        } else {
            match out.pop() {
                Some(mut piece) => {
                    assert(piece@ == before.last());
                    piece.push(s[i]);
                    out.push(piece);
                    assert(unrolled(out@) =~= before.update(
                        before.len() - 1,
                        before.last().push(s@[i as int]),
                    ));
                },
                None => {},
            }
        }
    }
    assert(s@.take(s@.len() as int) =~= s@);
    out
}

/// A line without the carriage return before its line feed.
pub open spec fn without_return(line: Seq<char>) -> Seq<char> {
    if line.len() > 0 && line.last() == '\r' {
        line.drop_last()
    } else {
        line
    }
}

/// The lines of a list of stations that are no comments: the pieces between the line
/// feeds. An empty piece after the last line feed is no line.
pub open spec fn data_lines(s: Seq<char>) -> Seq<Seq<char>> {
    let all = pieces(s, '\n');
    data_lines_of(all, all.len())
}

/// The lines among the first `n` pieces.
pub open spec fn data_lines_of(all: Seq<Seq<char>>, n: nat) -> Seq<Seq<char>>
    decreases n,
{
    if n == 0 {
        Seq::empty()
    } else {
        let before = data_lines_of(all, (n - 1) as nat);
        let piece = all[n - 1];
        let line = if n == all.len() {
            piece
        } else {
            without_return(piece)
        };
        if (n == all.len() && piece.len() == 0) || (line.len() > 0 && line[0] == '#') {
            before
        } else {
            before.push(line)
        }
    }
}

/// The columns of lines; `None` if a line has other than four.
pub open spec fn columns_of(lines: Seq<Seq<char>>) -> Option<Seq<Columns>>
    decreases lines.len(),
{
    if lines.len() == 0 {
        Some(Seq::empty())
    } else {
        let cols = pieces(lines.last(), '\t');
        match columns_of(lines.drop_last()) {
            Some(before) => if cols.len() == 4 {
                Some(before.push((cols[0], cols[1], cols[2], cols[3])))
            } else {
                None
            },
            None => None,
        }
    }
}

/// The lines of a list of stations that are no comments.
pub fn lines_in(tsv: &str) -> (r: Vec<Vec<char>>)
    ensures
        unrolled(r@) == data_lines(tsv@),
{
    let chars = chars_of(tsv);
    let parts = split(&chars, '\n');
    let ghost all = pieces(tsv@, '\n');
    let n: usize = parts.len();
    let mut lines: Vec<Vec<char>> = Vec::new();
    assert(unrolled(lines@) =~= Seq::<Seq<char>>::empty());
    for i in 0..n
        invariant
            n == parts@.len(),
            unrolled(parts@) == all,
            unrolled(lines@) == data_lines_of(all, i as nat),
    {
        let part = &parts[i];
        assert(part@ == all[i as int]);
        let mut end: usize = part.len();
        if i + 1 < n && end > 0 && part[end - 1] == '\r' {
            end = end - 1;
        }
        let mut line: Vec<char> = Vec::new();
        for k in 0..end
            invariant
                end <= part@.len(),
                line@ == part@.take(k as int),
        {
            line.push(part[k]);
            assert(line@ =~= part@.take(k + 1));
        }
        let ghost text = if i + 1 == all.len() {
            all[i as int]
        } else {
            without_return(all[i as int])
        };
        assert(line@ =~= text);
        if !((i + 1 == n && line.len() == 0) || (line.len() > 0 && line[0] == '#')) {
            let ghost before = unrolled(lines@);
            lines.push(line);
            assert(unrolled(lines@) =~= before.push(text));
        }
    }
    lines
}

/// Reads a list of stations: one on each line, in four columns set apart by tabs. Lines
/// that begin with `#` are comments. `None` if a line has other than four columns.
pub fn station_rows(tsv: &str) -> (r: Option<Vec<StationRow>>)
    ensures
        match r {
            Some(rows) => columns_of(data_lines(tsv@)) == Some(all_columns(rows@)),
            None => columns_of(data_lines(tsv@)) is None,
        },
{
    let lines = lines_in(tsv);
    let ghost all = data_lines(tsv@);
    let n: usize = lines.len();
    let mut rows: Vec<StationRow> = Vec::new();
    assert(all_columns(rows@) =~= Seq::<Columns>::empty());
    for i in 0..n
        invariant
            n == lines@.len(),
            unrolled(lines@) == all,
            all == data_lines(tsv@),
            columns_of(all.take(i as int)) == Some(all_columns(rows@)),
    {
        let line = &lines[i];
        proof {
            assert(line@ == all[i as int]);
            assert(all.take(i + 1).drop_last() =~= all.take(i as int));
            assert(all.take(i + 1).last() == line@);
        }
        let cols = split(line, '\t');
        assert(unrolled(cols@) == pieces(line@, '\t'));
        if cols.len() != 4 {
            proof {
                lemma_columns_of(all, i + 1);
            }
            return None;
        }
        let row = StationRow {
            pref: text_of(&cols[0]),
            name: text_of(&cols[1]),
            latitude: text_of(&cols[2]),
            longitude: text_of(&cols[3]),
        };
        let ghost so_far = all_columns(rows@);
        let ghost new = row.columns();
        rows.push(row);
        proof {
            assert(unrolled(cols@)[0] == cols@[0]@);
            assert(unrolled(cols@)[1] == cols@[1]@);
            assert(unrolled(cols@)[2] == cols@[2]@);
            assert(unrolled(cols@)[3] == cols@[3]@);
            assert(all_columns(rows@) =~= so_far.push(new));
        }
    }
    assert(all.take(n as int) =~= all);
    Some(rows)
}

/// A line with other than four columns spoils the whole list.
proof fn lemma_columns_of(lines: Seq<Seq<char>>, n: int)
    requires
        0 <= n <= lines.len(),
        columns_of(lines.take(n)) is None,
    ensures
        columns_of(lines) is None,
    decreases lines.len() - n,
{
    if n < lines.len() {
        assert(lines.take(n + 1).drop_last() =~= lines.take(n));
        lemma_columns_of(lines, n + 1);
    } else {
        assert(lines.take(n) =~= lines);
    }
}

/// Where a station is: the last of that name in that prefecture.
pub open spec fn station_coord(
    stations: Seq<ObservationStation>,
    pref: Seq<char>,
    addr: Seq<char>,
) -> Option<(Real, Real)>
    decreases stations.len(),
{
    if stations.len() == 0 {
        None
    } else {
        let last = stations.last();
        if pref_key(last.pref@) == pref_key(pref) && last.name@ == addr {
            Some((last.latitude, last.longitude))
        } else {
            station_coord(stations.drop_last(), pref, addr)
        }
    }
}

/// Where a station is. It is looked up within its prefecture, so that stations of the same
/// name elsewhere are not taken for it.
pub fn observation_point_coord(stations: &[ObservationStation], pref: &str, addr: &str) -> (r:
    Option<(Real, Real)>)
    ensures
        r == station_coord(stations@, pref@, addr@),
{
    let mut i: usize = stations.len();
    assert(stations@.take(i as int) =~= stations@);
    while i > 0
        invariant
            i <= stations@.len(),
            station_coord(stations@, pref@, addr@) == station_coord(
                stations@.take(i as int),
                pref@,
                addr@,
            ),
        decreases i,
    {
        let s = &stations[i - 1];
        assert(stations@.take(i as int).drop_last() =~= stations@.take(i - 1));
        assert(stations@.take(i as int).last() == *s);
        if same(normalize_pref(s.pref.as_str()), normalize_pref(pref)) && same(
            s.name.as_str(),
            addr,
        ) {
            return Some((s.latitude, s.longitude));
        }
        i = i - 1;
    }
    None
}

/// The lower-case form of a character, which may be several.
pub uninterp spec fn lowercase(c: char) -> Seq<char>;

/// Trusted: `char::to_lowercase` is a function of the character.
#[verifier::external_body]
fn lower_case(c: char) -> (r: Vec<char>)
    ensures
        r@ == lowercase(c),
{
    c.to_lowercase().collect()
}

/// The plain form of a full-width letter, digit or space; other characters are their own.
pub open spec fn half_width(c: char) -> char {
    let n = c as int;
    if 0xff21 <= n <= 0xff3a || 0xff41 <= n <= 0xff5a || 0xff10 <= n <= 0xff19 {
        (n - 0xfee0) as char
    } else if n == 0x3000 {
        ' '
    } else {
        c
    }
}

/// Writes a full-width letter, digit or space in its plain form.
fn narrow(c: char) -> (r: char)
    ensures
        r == half_width(c),
{
    let n: u32 = code_point(c);
    if (0xff21 <= n && n <= 0xff3a) || (0xff41 <= n && n <= 0xff5a) || (0xff10 <= n && n
        <= 0xff19) {
        let low: u8 = (n - 0xfee0) as u8;
        low as char
    } else if n == 0x3000 {
        ' '
    } else {
        c
    }
}

/// The characters that a search passes over: white space and what joins words.
pub open spec fn is_filler(c: char) -> bool {
    is_white(c) || c == '・' || c == '･' || c == '-' || c == '‐' || c == '‑' || c == '‒' || c == '–'
        || c == '—' || c == '―' || c == '_'
}

fn filler(c: char) -> (r: bool)
    ensures
        r == is_filler(c),
{
    white(c) || c == '・' || c == '･' || c == '-' || c == '‐' || c == '‑' || c == '‒' || c == '–' || c
        == '—' || c == '―' || c == '_'
}

/// A text without what a search passes over.
pub open spec fn kept(s: Seq<char>) -> Seq<char>
    decreases s.len(),
{
    if s.len() == 0 {
        s
    } else if is_filler(s.last()) {
        kept(s.drop_last())
    } else {
        kept(s.drop_last()).push(s.last())
    }
}

/// A text as a search compares it: in plain width, in lower case, without white space and
/// without what joins words.
pub open spec fn search_text(s: Seq<char>) -> Seq<char>
    decreases s.len(),
{
    if s.len() == 0 {
        s
    } else {
        search_text(s.drop_last()) + kept(lowercase(half_width(s.last())))
    }
}

/// Writes a text as a search compares it.
fn normalize_search_text(value: &str) -> (r: Vec<char>)
    ensures
        r@ == search_text(value@),
{
    let chars = chars_of(value);
    let mut out: Vec<char> = Vec::new();
    assert(value@.take(0) =~= Seq::<char>::empty());
    for i in 0..chars.len()
        invariant
            chars@ == value@,
            out@ == search_text(value@.take(i as int)),
    {
        assert(value@.take(i + 1).drop_last() =~= value@.take(i as int));
        let ghost before = out@;
        let low = lower_case(narrow(chars[i]));
        assert(out@ =~= before + kept(low@.take(0)));
        for k in 0..low.len()
            invariant
                out@ == before + kept(low@.take(k as int)),
        {
            assert(low@.take(k + 1).drop_last() =~= low@.take(k as int));
            let ghost so_far = out@;
            if !filler(low[k]) {
                out.push(low[k]);
                assert(out@ =~= before + kept(low@.take(k + 1)));
            }
        }
        assert(low@.take(low@.len() as int) =~= low@);
    }
    assert(value@.take(value@.len() as int) =~= value@);
    out
}

/// How well a station matches: `low` hundredths, and of `span` more hundredths the share
/// `part / whole`.
#[derive(Debug, Clone, Copy, PartialEq, Eq, Structural)]
pub struct Score {
    pub low: u8,
    pub span: u8,
    pub part: usize,
    pub whole: usize,
}

impl Score {
    /// The score in hundredths, multiplied by `whole`.
    pub open spec fn scaled(self) -> int {
        self.low * self.whole + self.span * self.part
    }

    /// Whether this is a better score than another.
    pub open spec fn exceeds(self, other: Score) -> bool {
        self.scaled() * other.whole > other.scaled() * self.whole
    }

    /// A score that a search for a text of that length gives.
    pub open spec fn given_for(self, length: nat) -> bool {
        ||| self == full_score()
        ||| self.low == 70 && self.span == 30 && self.part == length && 0 < length < self.whole
        ||| self == pref_score()
        ||| self.low == 50 && self.span == 15 && self.part == length && 0 < length <= self.whole
    }
}

/// The score of a whole name.
pub open spec fn full_score() -> Score {
    Score { low: 100, span: 0, part: 1, whole: 1 }
}

/// The score of a prefecture.
pub open spec fn pref_score() -> Score {
    Score { low: 65, span: 0, part: 1, whole: 1 }
}

/// A station that a search has found.
#[derive(Debug)]
pub struct ObservationStationMatch<'a> {
    pub score: Score,
    pub station: &'a ObservationStation,
}

/// A prefecture's name as a search knows it, without its suffix.
pub open spec fn stem(pref: Seq<char>) -> Seq<char> {
    if pref.len() > 0 && (pref.last() == '都' || pref.last() == '府' || pref.last() == '県') {
        pref.drop_last()
    } else {
        pref
    }
}

/// The name of a station after that of its prefecture, where it begins with the same word.
pub open spec fn alias(pref: Seq<char>, name: Seq<char>) -> Option<Seq<char>> {
    let stem = stem(pref);
    if stem.len() > 0 && begins(name, stem) {
        Some(pref + name.skip(stem.len() as int))
    } else {
        None
    }
}

/// The score of a text that holds the query.
pub open spec fn partial_score(low: u8, span: u8, query: Seq<char>, form: Seq<char>) -> Score {
    Score { low, span, part: query.len() as usize, whole: form.len() as usize }
}

/// How well a station matches a query. Its whole name matches best, then a part of its name,
/// then its prefecture, then a part of both put together. All texts are as a search compares
/// them.
pub open spec fn match_score(query: Seq<char>, pref: Seq<char>, name: Seq<char>) -> Option<Score> {
    if query == name {
        Some(full_score())
    } else if occurs(name, query) {
        Some(partial_score(70, 30, query, name))
    } else if query == pref {
        Some(pref_score())
    } else if occurs(pref + name, query) {
        Some(partial_score(50, 15, query, pref + name))
    } else {
        match alias(pref, name) {
            Some(form) => if occurs(form, query) {
                Some(partial_score(50, 15, query, form))
            } else {
                None
            },
            None => None,
        }
    }
}

/// What a search found, and how well it matches.
pub type Found = (Score, ObservationStation);

/// The stations that match, in order.
pub open spec fn matching(stations: Seq<ObservationStation>, query: Seq<char>) -> Seq<Found>
    decreases stations.len(),
{
    if stations.len() == 0 {
        Seq::empty()
    } else {
        let before = matching(stations.drop_last(), query);
        let s = stations.last();
        match match_score(query, search_text(s.pref@), search_text(s.name@)) {
            Some(score) => before.push((score, s)),
            None => before,
        }
    }
}

/// Whether one match stands before another: the better score, then the shorter name (in
/// UTF-8), then the prefecture and the name in the order of their characters.
pub open spec fn ranks_before(a: Found, b: Found) -> bool {
    if a.0.exceeds(b.0) {
        true
    } else if b.0.exceeds(a.0) {
        false
    } else if encode_utf8(a.1.name@).len() != encode_utf8(b.1.name@).len() {
        encode_utf8(a.1.name@).len() < encode_utf8(b.1.name@).len()
    } else if a.1.pref@ != b.1.pref@ {
        precedes(a.1.pref@, b.1.pref@)
    } else {
        precedes(a.1.name@, b.1.name@)
    }
}

/// Matches with one more, which goes before those at the end that it stands before.
pub open spec fn placed(list: Seq<Found>, m: Found) -> Seq<Found>
    decreases list.len(),
{
    if list.len() > 0 && ranks_before(m, list.last()) {
        placed(list.drop_last(), m).push(list.last())
    } else {
        list.push(m)
    }
}

/// Matches in the order of their ranks; equal ones stay in order.
pub open spec fn ranked(list: Seq<Found>) -> Seq<Found>
    decreases list.len(),
{
    if list.len() == 0 {
        list
    } else {
        placed(ranked(list.drop_last()), list.last())
    }
}

/// Whether no match comes after one that it ranks before.
pub open spec fn best_first(list: Seq<Found>) -> bool {
    forall|i: int, j: int|
        0 <= i < j < list.len() ==> !ranks_before(#[trigger] list[j], #[trigger] list[i])
}

/// The stations of matches.
pub open spec fn places(list: Seq<Found>) -> Seq<ObservationStation> {
    Seq::new(list.len(), |i: int| list[i].1)
}

/// Why a search is refused.
#[derive(Debug, Clone, Copy, PartialEq, Eq, Structural)]
pub enum SearchError {
    /// No result is asked for.
    ZeroLimit,
    /// Nothing is left of the query.
    EmptyQuery,
}

impl SearchError {
    /// How the refusal reads.
    pub open spec fn text(self) -> Seq<char> {
        match self {
            SearchError::ZeroLimit => "limitは1以上で指定してください"@,
            SearchError::EmptyQuery => "検索語を1文字以上で指定してください"@,
        }
    }

    /// Writes the refusal.
    pub fn message(&self) -> (r: &'static str)
        ensures
            r@ == self.text(),
    {
        match self {
            SearchError::ZeroLimit => "limitは1以上で指定してください",
            SearchError::EmptyQuery => "検索語を1文字以上で指定してください",
        }
    }
}

/// What matches stand for.
pub open spec fn found(list: Seq<ObservationStationMatch>) -> Seq<Found> {
    Seq::new(list.len(), |i: int| (list[i].score, *list[i].station))
}

/// The first of a list, as many as asked for.
pub open spec fn limited<A>(list: Seq<A>, limit: Option<usize>) -> Seq<A> {
    match limit {
        Some(n) => if n < list.len() {
            list.take(n as int)
        } else {
            list
        },
        None => list,
    }
}

/// Why a search is refused, if it is.
pub open spec fn search_error(query: Seq<char>, limit: Option<usize>) -> Option<SearchError> {
    if limit == Some(0usize) {
        Some(SearchError::ZeroLimit)
    } else if search_text(query).len() == 0 {
        Some(SearchError::EmptyQuery)
    } else {
        None
    }
}

/// Searches stations by a part of their names, with or without the prefecture. The names of
/// what is found are those of the list, as the feed uses them.
pub fn search_observation_stations<'a>(
    stations: &'a [ObservationStation],
    query: &str,
    limit: Option<usize>,
) -> (r: Result<Vec<ObservationStationMatch<'a>>, SearchError>)
    ensures
        match r {
            Ok(list) => {
                &&& search_error(query@, limit) is None
                &&& found(list@) == limited(
                    ranked(matching(stations@, search_text(query@))),
                    limit,
                )
                &&& best_first(found(list@))
            },
            Err(e) => search_error(query@, limit) == Some(e),
        },
{
    if let Some(n) = limit {
        if n == 0 {
            return Err(SearchError::ZeroLimit);
        }
    }
    let wanted = normalize_search_text(query);
    if wanted.len() == 0 {
        return Err(SearchError::EmptyQuery);
    }
    let mut list: Vec<ObservationStationMatch<'a>> = Vec::new();
    assert(found(list@) =~= Seq::<Found>::empty());
    assert(matching(stations@.take(0), wanted@) =~= Seq::<Found>::empty());
    for i in 0..stations.len()
        invariant
            wanted@ == search_text(query@),
            wanted@.len() > 0,
            found(list@) == ranked(matching(stations@.take(i as int), wanted@)),
            best_first(found(list@)),
            forall|k: int| 0 <= k < list@.len() ==> (#[trigger] list@[k]).score.given_for(
                    wanted@.len(),
                ),
    {
        let station = &stations[i];
        let ghost before = matching(stations@.take(i as int), wanted@);
        assert(stations@.take(i + 1).drop_last() =~= stations@.take(i as int));
        assert(stations@.take(i + 1).last() == *station);
        match score_of(&wanted, station) {
            Some(score) => {
                assert(before.push((score, *station)).drop_last() =~= before);
                proof {
                    lemma_placed(found(list@), (score, *station));
                }
                place(&mut list, ObservationStationMatch { score, station }, wanted.len());
            },
            None => {},
        }
    }
    assert(stations@.take(stations@.len() as int) =~= stations@);
    if let Some(n) = limit {
        if n < list.len() {
            let ghost all = found(list@);
            list.truncate(n);
            assert(found(list@) =~= all.take(n as int));
        }
    }
    Ok(list)
}

/// How well a station matches a query.
fn score_of(query: &Vec<char>, station: &ObservationStation) -> (r: Option<Score>)
    requires
        query@.len() > 0,
    ensures
        r == match_score(query@, search_text(station.pref@), search_text(station.name@)),
        r matches Some(s) ==> s.given_for(query@.len()),
{
    let name = normalize_search_text(station.name.as_str());
    let pref = normalize_search_text(station.pref.as_str());
    let q: usize = query.len();
    if same_chars(query, &name) {
        return Some(Score { low: 100, span: 0, part: 1, whole: 1 });
    }
    if contains_text(&name, query) {
        proof {
            lemma_occurs_len(name@, query@);
        }
        return Some(Score { low: 70, span: 30, part: q, whole: name.len() });
    }
    if same_chars(query, &pref) {
        return Some(Score { low: 65, span: 0, part: 1, whole: 1 });
    }
    let both = joined_chars(&pref, &name, 0);
    assert(name@.skip(0) =~= name@);
    if contains_text(&both, query) {
        proof {
            lemma_occurs_len(both@, query@);
        }
        return Some(Score { low: 50, span: 15, part: q, whole: both.len() });
    }
    let mut end: usize = pref.len();
    if end > 0 && (pref[end - 1] == '都' || pref[end - 1] == '府' || pref[end - 1] == '県') {
        end = end - 1;
    }
    let word = &pref[0..end];
    assert(word@ =~= stem(pref@));
    if end > 0 && begins_with(&name, word) {
        let form = joined_chars(&pref, &name, end);
        if contains_text(&form, query) {
            proof {
                lemma_occurs_len(form@, query@);
            }
            return Some(Score { low: 50, span: 15, part: q, whole: form.len() });
        }
    }
    None
}

fn same_chars(a: &Vec<char>, b: &Vec<char>) -> (r: bool)
    ensures
        r == (a@ == b@),
{
    if a.len() != b.len() {
        return false;
    }
    for i in 0..a.len()
        invariant
            a@.len() == b@.len(),
            forall|j: int| 0 <= j < i ==> a@[j] == b@[j],
    {
        if a[i] != b[i] {
            return false;
        }
    }
    assert(a@ =~= b@);
    true
}

/// A text and the rest of another from a position on.
fn joined_chars(a: &Vec<char>, b: &Vec<char>, from: usize) -> (r: Vec<char>)
    requires
        from <= b@.len(),
    ensures
        r@ == a@ + b@.skip(from as int),
{
    let mut out: Vec<char> = Vec::new();
    for i in 0..a.len()
        invariant
            out@ == a@.take(i as int),
    {
        out.push(a[i]);
        assert(out@ =~= a@.take(i + 1));
    }
    for i in from..b.len()
        invariant
            from <= b@.len(),
            out@ == a@ + b@.subrange(from as int, i as int),
    {
        out.push(b[i]);
        assert(out@ =~= a@ + b@.subrange(from as int, i + 1));
    }
    assert(b@.subrange(from as int, b@.len() as int) =~= b@.skip(from as int));
    out
}

/// A text is no longer than one that holds it, and as long only if they are the same.
proof fn lemma_occurs_len(hay: Seq<char>, needle: Seq<char>)
    requires
        occurs(hay, needle),
    ensures
        needle.len() <= hay.len(),
        needle.len() == hay.len() ==> needle == hay,
{
    let i = choose|i: int|
        0 <= i <= hay.len() - needle.len() && #[trigger] hay.subrange(i, i + needle.len())
            == needle;
    if needle.len() == hay.len() {
        assert(hay.subrange(0, hay.len() as int) =~= hay);
    }
}

/// Whether one score is better than another, for the same query.
fn exceeds(a: Score, b: Score, length: usize) -> (r: bool)
    requires
        a.given_for(length as nat),
        b.given_for(length as nat),
    ensures
        r == a.exceeds(b),
{
    proof {
        lemma_exceeds(a, b, length as nat);
    }
    if a.low == b.low {
        a.span > 0 && a.whole < b.whole
    } else {
        a.low > b.low && !(a.low == 65 && b.part == b.whole)
    }
}

/// Which of two scores for the same query is better.
proof fn lemma_exceeds(a: Score, b: Score, length: nat)
    requires
        a.given_for(length),
        b.given_for(length),
    ensures
        a.exceeds(b) == (if a.low == b.low {
            a.span > 0 && a.whole < b.whole
        } else {
            a.low > b.low && !(a.low == 65 && b.part == b.whole)
        }),
{
    let (x, y) = (a.whole as int, b.whole as int);
    let q = length as int;
    let (la, sa) = (a.low as int, a.span as int);
    let (lb, sb) = (b.low as int, b.span as int);
    if a.low == b.low {
        if a.span > 0 {
            assert((la * x + sa * q) * y - (la * y + sa * q) * x == sa * q * (y - x))
                by (nonlinear_arith);
            assert((sa * q * (y - x) > 0) == (x < y)) by (nonlinear_arith)
                requires
                    sa > 0,
                    q > 0,
            ;
        }
    } else {
        let (p, r) = (a.part as int, b.part as int);
        assert((la * x + sa * p) * y - (lb * y + sb * r) * x == (la - lb) * (x * y) + sa * p * y
            - sb * r * x) by (nonlinear_arith);
        if a.low > b.low {
            lemma_gap(la - lb, sa, sb, p, r, x, y);
        } else {
            lemma_gap(lb - la, sb, sa, r, p, y, x);
            assert(x * y == y * x) by (nonlinear_arith);
            assert((la - lb) * (x * y) == -((lb - la) * (x * y))) by (nonlinear_arith);
        }
    }
}

/// The better of two kinds of scores stays the better whatever the shares.
proof fn lemma_gap(gap: int, sa: int, sb: int, p: int, r: int, x: int, y: int)
    requires
        0 < x,
        0 < y,
        0 <= sa,
        0 <= p,
        0 <= sb,
        0 <= r <= y,
        sb <= gap,
        gap > 0,
        sb == gap ==> r <= y,
    ensures
        gap * (x * y) + sa * p * y - sb * r * x >= 0,
        (sb < gap || r < y) ==> gap * (x * y) + sa * p * y - sb * r * x > 0,
        (sb == gap && r == y && sa == 0) ==> gap * (x * y) + sa * p * y - sb * r * x == 0,
{
    assert(sa * p * y >= 0) by (nonlinear_arith)
        requires
            sa >= 0,
            p >= 0,
            y > 0,
    ;
    assert(sb * r * x <= sb * (x * y)) by (nonlinear_arith)
        requires
            0 <= sb,
            r <= y,
            x > 0,
    ;
    assert(sb * (x * y) <= gap * (x * y)) by (nonlinear_arith)
        requires
            sb <= gap,
            x > 0,
            y > 0,
    ;
    if sb < gap {
        assert(sb * (x * y) < gap * (x * y)) by (nonlinear_arith)
            requires
                sb < gap,
                x > 0,
                y > 0,
        ;
    } else if r < y {
        assert(sb * r * x < sb * (x * y)) by (nonlinear_arith)
            requires
                0 < sb,
                r < y,
                x > 0,
        ;
    } else if sa == 0 {
        assert(sa * p * y == 0) by (nonlinear_arith)
            requires
                sa == 0,
        ;
        assert(sb * r * x == gap * (x * y)) by (nonlinear_arith)
            requires
                sb == gap,
                r == y,
        ;
    }
}

/// Whether one match stands before another.
fn stands_before(a: &ObservationStationMatch, b: &ObservationStationMatch, length: usize) -> (r:
    bool)
    requires
        a.score.given_for(length as nat),
        b.score.given_for(length as nat),
    ensures
        r == ranks_before((a.score, *a.station), (b.score, *b.station)),
{
    if exceeds(a.score, b.score, length) {
        return true;
    }
    if exceeds(b.score, a.score, length) {
        return false;
    }
    let m: usize = a.station.name.as_str().as_bytes().len();
    let n: usize = b.station.name.as_str().as_bytes().len();
    if m != n {
        m < n
    } else if !same(a.station.pref.as_str(), b.station.pref.as_str()) {
        comes_before(a.station.pref.as_str(), b.station.pref.as_str())
    } else {
        comes_before(a.station.name.as_str(), b.station.name.as_str())
    }
}

/// Puts a match in its place.
fn place<'a>(
    list: &mut Vec<ObservationStationMatch<'a>>,
    m: ObservationStationMatch<'a>,
    length: usize,
)
    requires
        m.score.given_for(length as nat),
        forall|k: int|
            0 <= k < old(list)@.len() ==> (#[trigger] old(list)@[k]).score.given_for(
                length as nat,
            ),
    ensures
        found(final(list)@) == placed(found(old(list)@), (m.score, *m.station)),
        forall|k: int|
            0 <= k < final(list)@.len() ==> (#[trigger] final(list)@[k]).score.given_for(
                length as nat,
            ),
{
    let ghost before = list@;
    let ghost all = found(list@);
    let ghost new: Found = (m.score, *m.station);
    let mut i: usize = list.len();
    assert(all.take(i as int) =~= all);
    assert(placed(all, new) + all.skip(i as int) =~= placed(all, new));
    while i > 0 && stands_before(&m, &list[i - 1], length)
        invariant
            i <= list@.len(),
            list@ == before,
            all == found(list@),
            new == (m.score, *m.station),
            m.score.given_for(length as nat),
            forall|k: int|
                0 <= k < list@.len() ==> (#[trigger] list@[k]).score.given_for(length as nat),
            placed(all, new) == placed(all.take(i as int), new) + all.skip(i as int),
        decreases i,
    {
        proof {
            assert(all.take(i as int).drop_last() =~= all.take(i - 1));
            assert(all.take(i as int).last() == all[i - 1]);
            assert(placed(all.take(i - 1), new).push(all[i - 1]) + all.skip(i as int) =~= placed(
                all.take(i - 1),
                new,
            ) + all.skip(i - 1));
        }
        i = i - 1;
    }
    proof {
        if i > 0 {
            assert(all.take(i as int).last() == all[i - 1]);
        }
        assert(placed(all.take(i as int), new) == all.take(i as int).push(new));
    }
    list.insert(i, m);
    assert(found(list@) =~= all.take(i as int).push(new) + all.skip(i as int));
    assert forall|k: int| 0 <= k < list@.len() implies (#[trigger] list@[k]).score.given_for(
        length as nat,
    ) by {
        if k < i {
            assert(list@[k] == before[k]);
        } else if k > i {
            assert(list@[k] == before[k - 1]);
        }
    }
}

/// The prefectures, and where each is drawn: the bits of a latitude and a longitude.
pub const PREF_COORDS: [(&'static str, u64, u64); 47] = [
    // 43.0642 north, 141.3469 east
    ("北海道", 0x4045_8837_b4a2_339c, 0x4061_ab19_ce07_5f70),
    // 40.8244 north, 140.7400 east
    ("青森県", 0x4044_6985_f06f_6944, 0x4061_97ae_147a_e148),
    // 39.7036 north, 141.1527 east
    ("岩手県", 0x4043_da0f_9096_bb99, 0x4061_a4e2_eb1c_432d),
    // 38.2688 north, 140.8721 east
    ("宮城県", 0x4043_2268_09d4_9518, 0x4061_9be8_3e42_5aee),
    // 39.7186 north, 140.1024 east
    ("秋田県", 0x4043_dbfb_15b5_73eb, 0x4061_8346_dc5d_6388),
    // 38.2404 north, 140.3633 east
    ("山形県", 0x4043_1ec5_6d5c_faad, 0x4061_8ba0_2752_5461),
    // 37.7503 north, 140.4676 east
    ("福島県", 0x4042_e009_d495_182b, 0x4061_8ef6_9446_7382),
    // 36.3418 north, 140.4468 east
    ("茨城県", 0x4042_2bc0_1a36_e2eb, 0x4061_8e4c_2f83_7b4a),
    // 36.5657 north, 139.8836 east
    ("栃木県", 0x4042_4868_db8b_ac71, 0x4061_7c46_7381_d7dc),
    // 36.3907 north, 139.0604 east
    ("群馬県", 0x4042_3202_7525_460b, 0x4061_61ee_cbfb_15b5),
    // 35.8570 north, 139.6489 east
    ("埼玉県", 0x4041_edb2_2d0e_5604, 0x4061_74c3_c9ee_cbfb),
    // 35.6051 north, 140.1233 east
    ("千葉県", 0x4041_cd73_eab3_67a1, 0x4061_83f2_12d7_7319),
    // 35.6895 north, 139.6917 east
    ("東京都", 0x4041_d841_8937_4bc7, 0x4061_7622_6809_d495),
    // 35.4478 north, 139.6425 east
    ("神奈川県", 0x4041_b951_82a9_930c, 0x4061_748f_5c28_f5c3),
    // 37.9026 north, 139.0235 east
    ("新潟県", 0x4042_f388_6594_af4f, 0x4061_60c0_8312_6e98),
    // 36.6953 north, 137.2113 east
    ("富山県", 0x4042_58ff_9724_7454, 0x4061_26c2_f837_b4a2),
    // 36.5947 north, 136.6256 east
    ("石川県", 0x4042_4c1f_212d_7732, 0x4061_1404_ea4a_8c15),
    // 36.0652 north, 136.2216 east
    ("福井県", 0x4042_0858_793d_d97f, 0x4061_0717_58e2_1965),
    // 35.6642 north, 138.5684 east
    ("山梨県", 0x4041_d504_816f_0069, 0x4061_5230_5532_617c),
    // 36.6513 north, 138.1810 east
    ("長野県", 0x4042_535d_cc63_f141, 0x4061_45ca_c083_126f),
    // 35.3912 north, 136.7223 east
    ("岐阜県", 0x4041_b212_d773_18fc, 0x4061_171d_14e3_bcd3),
    // 34.9769 north, 138.3831 east
    ("静岡県", 0x4041_7d0b_0f27_bb30, 0x4061_4c42_5aee_6320),
    // 35.1802 north, 136.9066 east
    ("愛知県", 0x4041_9710_cb29_5e9e, 0x4061_1d02_de00_d1b7),
    // 34.7303 north, 136.5086 east
    ("三重県", 0x4041_5d7a_786c_2268, 0x4061_1046_7381_d7dc),
    // 35.0045 north, 135.8686 east
    ("滋賀県", 0x4041_8093_74bc_6a7f, 0x4060_fbcb_923a_29c7),
    // 35.0212 north, 135.7556 east
    ("京都府", 0x4041_82b6_ae7d_566d, 0x4060_f82d_e00d_1b71),
    // 34.6863 north, 135.5197 east
    ("大阪府", 0x4041_57d8_adab_9f56, 0x4060_f0a1_61e4_f766),
    // 34.6913 north, 135.1830 east
    ("兵庫県", 0x4041_587c_84b5_dcc6, 0x4060_e5db_22d0_e560),
    // 34.6851 north, 135.8329 east
    ("奈良県", 0x4041_57b1_5b57_3eab, 0x4060_faa7_1de6_9ad4),
    // 34.2261 north, 135.1675 east
    ("和歌山県", 0x4041_1cf0_d844_d014, 0x4060_e55c_28f5_c28f),
    // 35.5039 north, 134.2380 east
    ("鳥取県", 0x4041_c07f_cb92_3a2a, 0x4060_c79d_b22d_0e56),
    // 35.4723 north, 133.0505 east
    ("島根県", 0x4041_bc74_538e_f34d, 0x4060_a19d_b22d_0e56),
    // 34.6618 north, 133.9344 east
    ("岡山県", 0x4041_54b5_dcc6_3f14, 0x4060_bde6_9ad4_2c3d),
    // 34.3966 north, 132.4596 east
    ("広島県", 0x4041_32c3_c9ee_cbfb, 0x4060_8eb5_0b0f_27bb),
    // 34.1859 north, 131.4714 east
    ("山口県", 0x4041_17cb_923a_29c7, 0x4060_6f15_b573_eab3),
    // 34.0658 north, 134.5593 east
    ("徳島県", 0x4041_086c_2268_09d5, 0x4060_d1e5_c91d_14e4),
    // 34.3401 north, 134.0434 east
    ("香川県", 0x4041_2b88_6594_af4f, 0x4060_c163_8865_94af),
    // 33.8417 north, 132.7657 east
    ("愛媛県", 0x4040_ebbc_d35a_8588, 0x4060_9880_9d49_5183),
    // 33.5597 north, 133.5311 east
    ("高知県", 0x4040_c7a4_3fe5_c91d, 0x4060_b0fe_c56d_5cfb),
    // 33.6064 north, 130.4181 east
    ("福岡県", 0x4040_cd9e_83e4_25af, 0x4060_4d61_1340_4ea5),
    // 33.2494 north, 130.2989 east
    ("佐賀県", 0x4040_9fec_56d5_cfab, 0x4060_4990_96bb_98c8),
    // 32.7448 north, 129.8737 east
    ("長崎県", 0x4040_5f55_9b3d_07c8, 0x4060_3bf5_59b3_d07d),
    // 32.7898 north, 130.7417 east
    ("熊本県", 0x4040_6518_2a99_30be, 0x4060_57bc_01a3_6e2f),
    // 33.2382 north, 131.6126 east
    ("大分県", 0x4040_9e7d_566c_f41f, 0x4060_739a_6b50_b0f2),
    // 31.9111 north, 131.4239 east
    ("宮崎県", 0x403f_e93d_d97f_62b7, 0x4060_6d90_96bb_98c8),
    // 31.5602 north, 130.5581 east
    ("鹿児島県", 0x403f_8f69_4467_381d, 0x4060_51db_f487_fcb9),
    // 26.2124 north, 127.6809 east
    ("沖縄県", 0x403a_365f_d8ad_ab9f, 0x405f_eb93_dd97_f62b),
];

/// The first entry under a name.
pub open spec fn coord_in(table: Seq<(&'static str, u64, u64)>, pref: Seq<char>) -> Option<
    (Real, Real),
>
    decreases table.len(),
{
    if table.len() == 0 {
        None
    } else if table[0].0@ == pref {
        Some((Real { bits: table[0].1 }, Real { bits: table[0].2 }))
    } else {
        coord_in(table.drop_first(), pref)
    }
}

/// Where a prefecture is drawn.
pub open spec fn coord_of_pref(pref: Seq<char>) -> Option<(Real, Real)> {
    coord_in(PREF_COORDS@, pref)
}

/// Where a prefecture is drawn, by its full name. `None` for other names.
pub fn pref_coord(pref: &str) -> (r: Option<(Real, Real)>)
    ensures
        r == coord_of_pref(pref@),
{
    let table: [(&'static str, u64, u64); 47] = PREF_COORDS;
    let ghost all = PREF_COORDS@;
    assert(all.skip(0) =~= all);
    let mut i: usize = 0;
    while i < 47
        invariant
            i <= 47,
            table@ == all,
            all.len() == 47,
            coord_in(all, pref@) == coord_in(all.skip(i as int), pref@),
            all == PREF_COORDS@,
        decreases 47 - i,
    {
        let (name, lat, lon) = table[i];
        assert(all.skip(i as int)[0] == all[i as int]);
        if same(name, pref) {
            return Some((Real { bits: lat }, Real { bits: lon }));
        }
        assert(all.skip(i as int).drop_first() =~= all.skip(i + 1));
        i = i + 1;
    }
    assert(all.skip(47) =~= Seq::<(&'static str, u64, u64)>::empty());
    None
}

/// A mark on the map.
#[derive(Debug, Clone, Copy, PartialEq, Eq, Structural)]
pub struct Marker {
    pub latitude: Real,
    pub longitude: Real,
    pub scale: i32,
}

/// The largest value of each key, in the order in which the keys came.
pub open spec fn maxima(items: Seq<(Seq<char>, i32)>) -> Seq<(Seq<char>, i32)>
    decreases items.len(),
{
    if items.len() == 0 {
        items
    } else {
        let before = maxima(items.drop_last());
        let (key, value) = items.last();
        match position(before, key) {
            Some(i) => if value > before[i].1 {
                before.update(i, (key, value))
            } else {
                before
            },
            None => before.push((key, value)),
        }
    }
}

/// The markers of prefectures, each where it is drawn; a name that is none has no marker.
pub open spec fn pref_markers(items: Seq<(Seq<char>, i32)>) -> Seq<Marker>
    decreases items.len(),
{
    if items.len() == 0 {
        Seq::empty()
    } else {
        let before = pref_markers(items.drop_last());
        match coord_of_pref(items.last().0) {
            Some((latitude, longitude)) => before.push(
                Marker { latitude, longitude, scale: items.last().1 },
            ),
            None => before,
        }
    }
}

/// The keys and values of a list.
pub open spec fn pairs(v: Seq<(String, i32)>) -> Seq<(Seq<char>, i32)> {
    Seq::new(v.len(), |i: int| (v[i].0@, v[i].1))
}

/// Notes a value under a key, if it is the largest.
fn note(list: &mut Vec<(String, i32)>, key: &str, value: i32)
    ensures
        forall|items: Seq<(Seq<char>, i32)>|
            pairs(old(list)@) == #[trigger] maxima(items) ==> pairs(final(list)@) == maxima(
                items.push((key@, value)),
            ),
{
    let ghost before = pairs(list@);
    proof {
        lemma_position(before, key@);
        assert forall|items: Seq<(Seq<char>, i32)>|
            #![trigger maxima(items)]
            items.push((key@, value)).drop_last() == items by {
            assert(items.push((key@, value)).drop_last() =~= items);
        }
    }
    let n: usize = list.len();
    let mut i: usize = 0;
    while i < n
        invariant
            n == list@.len(),
            i <= n,
            pairs(list@) == before,
            forall|j: int| 0 <= j < i ==> (#[trigger] before[j]).0 != key@,
        ensures
            n == list@.len(),
            i <= n,
            pairs(list@) == before,
            forall|j: int| 0 <= j < i ==> (#[trigger] before[j]).0 != key@,
            i < n ==> before[i as int].0 == key@,
        decreases n - i,
    {
        assert(before[i as int] == (list@[i as int].0@, list@[i as int].1));
        if same(list[i].0.as_str(), key) {
            break;
        }
        i = i + 1;
    }
    if i < n {
        assert(position(before, key@) == Some(i as int));
        assert(before[i as int] == (list@[i as int].0@, list@[i as int].1));
        if value > list[i].1 {
            list[i].1 = value;
            assert(pairs(list@) =~= before.update(i as int, (key@, value)));
        }
    } else {
        assert(position(before, key@) is None);
        list.push((key.to_owned(), value));
        assert(pairs(list@) =~= before.push((key@, value)));
    }
}

/// Adds the markers of prefectures to others.
fn add_pref_markers(markers: &mut Vec<Marker>, list: &Vec<(String, i32)>)
    ensures
        final(markers)@ == old(markers)@ + pref_markers(pairs(list@)),
{
    let ghost all = pairs(list@);
    let ghost before = markers@;
    assert(before + pref_markers(all.take(0)) =~= before);
    for i in 0..list.len()
        invariant
            all == pairs(list@),
            markers@ == before + pref_markers(all.take(i as int)),
    {
        proof {
            assert(all.take(i + 1).drop_last() =~= all.take(i as int));
            assert(all.take(i + 1).last() == all[i as int]);
            assert(all[i as int] == (list@[i as int].0@, list@[i as int].1));
        }
        if let Some((latitude, longitude)) = pref_coord(list[i].0.as_str()) {
            let marker = Marker { latitude, longitude, scale: list[i].1 };
            let ghost so_far = pref_markers(all.take(i as int));
            markers.push(marker);
            assert(markers@ =~= before + so_far.push(marker));
        }
    }
    assert(all.take(all.len() as int) =~= all);
}

/// Where a point is drawn by itself: at its station, if it is one that is known.
pub open spec fn own_place(p: Point, stations: Seq<ObservationStation>) -> Option<(Real, Real)> {
    if p.is_area {
        None
    } else {
        station_coord(stations, p.pref@, p.addr@)
    }
}

/// Whether a point is drawn at all.
pub open spec fn drawable(p: Point) -> bool {
    p.scale >= 0 && p.pref@.len() > 0
}

/// The markers of the points at known stations.
pub open spec fn station_markers(
    points: Seq<Point>,
    stations: Seq<ObservationStation>,
) -> Seq<Marker>
    decreases points.len(),
{
    if points.len() == 0 {
        Seq::empty()
    } else {
        let before = station_markers(points.drop_last(), stations);
        let p = points.last();
        match own_place(p, stations) {
            Some((latitude, longitude)) => if drawable(p) {
                before.push(Marker { latitude, longitude, scale: p.scale })
            } else {
                before
            },
            None => before,
        }
    }
}

/// The prefectures and intensities of the other points.
pub open spec fn placeless(points: Seq<Point>, stations: Seq<ObservationStation>) -> Seq<
    (Seq<char>, i32),
>
    decreases points.len(),
{
    if points.len() == 0 {
        Seq::empty()
    } else {
        let before = placeless(points.drop_last(), stations);
        let p = points.last();
        if drawable(p) && own_place(p, stations) is None {
            before.push((p.pref@, p.scale))
        } else {
            before
        }
    }
}

/// The markers of observed points: those at known stations each by itself, then one for
/// each prefecture that the others lie in, with their largest intensity.
pub open spec fn point_markers(points: Seq<Point>, stations: Seq<ObservationStation>) -> Seq<
    Marker,
> {
    station_markers(points, stations) + pref_markers(maxima(placeless(points, stations)))
}

/// Turns observed points into markers.
///
/// A name that stands for an area is never taken for a station, whatever it reads. A
/// prefecture that is none (one abroad) is left out.
pub fn points_to_markers(points: &[Point], stations: &[ObservationStation]) -> (r: Vec<Marker>)
    ensures
        r@ == point_markers(points@, stations@),
{
    let mut markers: Vec<Marker> = Vec::new();
    let mut list: Vec<(String, i32)> = Vec::new();
    assert(pairs(list@) =~= maxima(placeless(points@.take(0), stations@)));
    for i in 0..points.len()
        invariant
            markers@ == station_markers(points@.take(i as int), stations@),
            pairs(list@) == maxima(placeless(points@.take(i as int), stations@)),
    {
        let p = &points[i];
        assert(points@.take(i + 1).drop_last() =~= points@.take(i as int));
        assert(points@.take(i + 1).last() == *p);
        if p.scale >= 0 && !p.pref.as_str().is_empty() {
            let place = if p.is_area {
                None
            } else {
                observation_point_coord(stations, p.pref.as_str(), p.addr.as_str())
            };
            match place {
                Some((latitude, longitude)) => {
                    markers.push(Marker { latitude, longitude, scale: p.scale });
                },
                None => {
                    note(&mut list, p.pref.as_str(), p.scale);
                },
            }
        }
    }
    assert(points@.take(points@.len() as int) =~= points@);
    add_pref_markers(&mut markers, &list);
    markers
}

/// The full names of the prefectures that a warning forecasts felt shaking for, and the
/// forecasts.
pub open spec fn shaken(areas: Seq<EewArea>) -> Seq<(Seq<char>, i32)>
    decreases areas.len(),
{
    if areas.len() == 0 {
        Seq::empty()
    } else {
        let before = shaken(areas.drop_last());
        let a = areas.last();
        if forecast_scale(a) > 0 && a.pref@.len() > 0 {
            before.push((full_name(a.pref@), forecast_scale(a)))
        } else {
            before
        }
    }
}

/// The markers of a warning: one for each prefecture, with its largest forecast.
pub open spec fn area_markers(areas: Seq<EewArea>) -> Seq<Marker> {
    pref_markers(maxima(shaken(areas)))
}

/// Turns the areas of a warning into markers. An area is never taken for a station, and one
/// without felt shaking is left out.
pub fn eew_areas_to_markers(areas: &[EewArea]) -> (r: Vec<Marker>)
    ensures
        r@ == area_markers(areas@),
{
    let mut list: Vec<(String, i32)> = Vec::new();
    assert(pairs(list@) =~= maxima(shaken(areas@.take(0))));
    for i in 0..areas.len()
        invariant
            pairs(list@) == maxima(shaken(areas@.take(i as int))),
    {
        let a = &areas[i];
        assert(areas@.take(i + 1).drop_last() =~= areas@.take(i as int));
        assert(areas@.take(i + 1).last() == *a);
        let scale: i32 = eew_area_scale(a);
        if scale > 0 && !a.pref.as_str().is_empty() {
            let pref = display_pref(a.pref.as_str());
            note(&mut list, pref.as_str(), scale);
        }
    }
    assert(areas@.take(areas@.len() as int) =~= areas@);
    let mut markers: Vec<Marker> = Vec::new();
    add_pref_markers(&mut markers, &list);
    assert(markers@ =~= area_markers(areas@));
    markers
}

/// A prefecture has one marker at most, with the largest intensity among its points.
pub proof fn lemma_maxima(items: Seq<(Seq<char>, i32)>, key: Seq<char>)
    ensures
        keys(maxima(items)).no_duplicates(),
        match position(maxima(items), key) {
            Some(i) => {
                &&& 0 <= i < maxima(items).len()
                &&& items.contains((key, maxima(items)[i].1))
                &&& forall|j: int|
                    0 <= j < items.len() && (#[trigger] items[j]).0 == key ==> items[j].1
                        <= maxima(items)[i].1
            },
            None => forall|j: int| 0 <= j < items.len() ==> (#[trigger] items[j]).0 != key,
        },
    decreases items.len(),
{
    if items.len() > 0 {
        let rest = items.drop_last();
        let before = maxima(rest);
        let (k, v) = items.last();
        lemma_maxima(rest, key);
        lemma_maxima(rest, k);
        lemma_position(before, k);
        lemma_position(before, key);
        let now = maxima(items);
        assert(items[items.len() - 1] == (k, v));
        assert forall|j: int| 0 <= j < rest.len() implies items[j] == #[trigger] rest[j] by {}
        match position(before, k) {
            Some(i) => {
                assert(keys(now) =~= keys(before));
            },
            None => {
                assert forall|a: int, b: int| 0 <= a < now.len() && 0 <= b < now.len() && a
                    != b implies keys(now)[a] != keys(now)[b] by {
                    if a < before.len() && b < before.len() {
                        assert(keys(now)[a] == keys(before)[a]);
                        assert(keys(now)[b] == keys(before)[b]);
                    } else if a < before.len() {
                        assert(before[a].0 != k);
                    } else {
                        assert(before[b].0 != k);
                    }
                }
            },
        }
        lemma_position(now, key);
        match position(now, key) {
            Some(p) => {
                assert(keys(now)[p] == key);
                if key == k {
                    match position(before, k) {
                        Some(i) => {
                            assert(keys(now)[i] == k);
                            assert(p == i);
                            if v <= before[i].1 {
                                let w = choose|w: int|
                                    0 <= w < rest.len() && rest[w] == (key, before[i].1);
                                assert(items[w] == (key, before[i].1));
                            }
                        },
                        None => {
                            assert(now[before.len() as int].0 == k);
                            assert(keys(now)[before.len() as int] == k);
                            assert(p == before.len());
                        },
                    }
                } else {
                    assert(p < before.len());
                    assert(before[p].0 == key);
                    assert(keys(before)[p] == key);
                    let i = position(before, key)->0;
                    assert(position(before, key) is Some);
                    assert(keys(before)[i] == key);
                    assert(p == i);
                    let w = choose|w: int| 0 <= w < rest.len() && rest[w] == (key, before[i].1);
                    assert(items[w] == (key, before[i].1));
                }
                assert forall|j: int|
                    0 <= j < items.len() && (#[trigger] items[j]).0 == key implies items[j].1
                    <= now[p].1 by {
                    if j < rest.len() {
                        assert(rest[j] == items[j]);
                    }
                }
            },
            None => {
                assert forall|j: int| 0 <= j < rest.len() implies (#[trigger] items[j]).0
                    != key || position(before, key) is Some by {
                    assert(rest[j] == items[j]);
                }
                if key == k {
                    match position(before, k) {
                        Some(i) => {
                            assert(now[i].0 == k);
                        },
                        None => {
                            assert(now[before.len() as int].0 == k);
                        },
                    }
                } else if position(before, key) is Some {
                    let i = position(before, key)->0;
                    assert(now[i].0 == key);
                }
            },
        }
    }
}

/// Nothing that a search passes over is left in a text as a search compares it.
pub proof fn lemma_search_text_has_no_filler(s: Seq<char>)
    ensures
        forall|i: int| 0 <= i < search_text(s).len() ==> !is_filler(#[trigger] search_text(s)[i]),
    decreases s.len(),
{
    if s.len() > 0 {
        let before = search_text(s.drop_last());
        let added = kept(lowercase(half_width(s.last())));
        lemma_search_text_has_no_filler(s.drop_last());
        lemma_kept(lowercase(half_width(s.last())));
        assert forall|i: int| 0 <= i < search_text(s).len() implies !is_filler(
            #[trigger] search_text(s)[i],
        ) by {
            if i < before.len() {
                assert(search_text(s)[i] == before[i]);
            } else {
                assert(search_text(s)[i] == added[i - before.len()]);
            }
        }
    }
}

proof fn lemma_kept(s: Seq<char>)
    ensures
        forall|i: int| 0 <= i < kept(s).len() ==> !is_filler(#[trigger] kept(s)[i]),
    decreases s.len(),
{
    if s.len() > 0 {
        let before = kept(s.drop_last());
        lemma_kept(s.drop_last());
        assert forall|i: int| 0 <= i < kept(s).len() implies !is_filler(#[trigger] kept(s)[i]) by {
            if i < before.len() {
                assert(kept(s)[i] == before[i]);
            }
        }
    }
}

/// Of three scores, if the first is better than the second and the third is not, the first is
/// better than the third; and if the first is not worse than the second, and the second is
/// better than the third, so is the first.
proof fn lemma_scores(a: Score, b: Score, c: Score)
    requires
        a.whole > 0,
        b.whole > 0,
        c.whole > 0,
    ensures
        a.exceeds(b) && !c.exceeds(b) ==> a.exceeds(c),
        !b.exceeds(a) && b.exceeds(c) ==> a.exceeds(c),
        !(a.exceeds(b) && b.exceeds(a)),
        !a.exceeds(b) && !b.exceeds(c) ==> !a.exceeds(c),
{
    let (x, y, z) = (a.scaled(), b.scaled(), c.scaled());
    let (p, q, r) = (a.whole as int, b.whole as int, c.whole as int);
    if x * q > y * p && z * q <= y * r {
        assert(x * r > z * p) by (nonlinear_arith)
            requires
                x * q > y * p,
                z * q <= y * r,
                p > 0,
                q > 0,
                r > 0,
        {
            assert(x * q * r > y * p * r) by (nonlinear_arith)
                requires
                    x * q > y * p,
                    r > 0,
            ;
            assert(z * q * p <= y * r * p) by (nonlinear_arith)
                requires
                    z * q <= y * r,
                    p > 0,
            ;
            assert(y * p * r == y * r * p) by (nonlinear_arith);
            assert(x * r * q == x * q * r) by (nonlinear_arith);
            assert(z * p * q == z * q * p) by (nonlinear_arith);
        }
    }
    if y * p <= x * q && y * r > z * q {
        assert(x * r > z * p) by (nonlinear_arith)
            requires
                y * p <= x * q,
                y * r > z * q,
                p > 0,
                q > 0,
                r > 0,
        {
            assert(y * r * p > z * q * p) by (nonlinear_arith)
                requires
                    y * r > z * q,
                    p > 0,
            ;
            assert(x * q * r >= y * p * r) by (nonlinear_arith)
                requires
                    y * p <= x * q,
                    r > 0,
            ;
            assert(y * p * r == y * r * p) by (nonlinear_arith);
            assert(x * r * q == x * q * r) by (nonlinear_arith);
            assert(z * p * q == z * q * p) by (nonlinear_arith);
        }
    }
    if x * q <= y * p && y * r <= z * q {
        assert(x * r <= z * p) by (nonlinear_arith)
            requires
                x * q <= y * p,
                y * r <= z * q,
                p > 0,
                q > 0,
                r > 0,
        {
            assert(x * q * r <= y * p * r) by (nonlinear_arith)
                requires
                    x * q <= y * p,
                    r > 0,
            ;
            assert(y * r * p <= z * q * p) by (nonlinear_arith)
                requires
                    y * r <= z * q,
                    p > 0,
            ;
            assert(y * p * r == y * r * p) by (nonlinear_arith);
            assert(x * r * q == x * q * r) by (nonlinear_arith);
            assert(z * p * q == z * q * p) by (nonlinear_arith);
        }
    }
}

/// If the first does not stand before the second, nor the second before the third, then the
/// first does not stand before the third.
proof fn lemma_ranks(a: Found, b: Found, c: Found)
    requires
        a.0.whole > 0,
        b.0.whole > 0,
        c.0.whole > 0,
        !ranks_before(a, b),
        !ranks_before(b, c),
    ensures
        !ranks_before(a, c),
{
    lemma_scores(a.0, b.0, c.0);
    lemma_scores(c.0, b.0, a.0);
    lemma_scores(a.0, c.0, b.0);
    lemma_precedes_trichotomy(a.1.pref@, b.1.pref@);
    lemma_precedes_trichotomy(b.1.pref@, c.1.pref@);
    lemma_precedes_trichotomy(a.1.pref@, c.1.pref@);
    lemma_precedes_trichotomy(a.1.name@, b.1.name@);
    lemma_precedes_trichotomy(b.1.name@, c.1.name@);
    lemma_precedes_trichotomy(a.1.name@, c.1.name@);
    lemma_precedes_chain(c.1.pref@, b.1.pref@, a.1.pref@);
    lemma_precedes_chain(c.1.name@, b.1.name@, a.1.name@);
    lemma_precedes_irreflexive(a.1.name@);
    lemma_precedes_irreflexive(a.1.pref@);
}

proof fn lemma_precedes_chain(a: Seq<char>, b: Seq<char>, c: Seq<char>)
    ensures
        precedes(a, b) && precedes(b, c) ==> precedes(a, c) && !precedes(c, a) && a != c,
{
    if precedes(a, b) && precedes(b, c) {
        lemma_precedes_transitive(a, b, c);
        lemma_precedes_irreflexive(a);
        if precedes(c, a) {
            lemma_precedes_transitive(a, c, a);
        }
    }
}

/// A search finds every station that matches and no other, with its score.
pub proof fn lemma_search_finds_every_match(stations: Seq<ObservationStation>, query: Seq<char>)
    ensures
        ({
            let results = ranked(matching(stations, query));
            &&& forall|i: int|
                0 <= i < stations.len() ==> (match match_score(
                    query,
                    search_text((#[trigger] stations[i]).pref@),
                    search_text(stations[i].name@),
                ) {
                    Some(score) => results.contains((score, stations[i])),
                    None => true,
                })
            &&& forall|k: int|
                0 <= k < results.len() ==> stations.contains((#[trigger] results[k]).1)
                    && match_score(
                    query,
                    search_text(results[k].1.pref@),
                    search_text(results[k].1.name@),
                ) == Some(results[k].0)
        }),
{
    broadcast use vstd::seq_lib::group_to_multiset_ensures;

    let list = matching(stations, query);
    lemma_matching(stations, query);
    lemma_ranked_keeps(list);
    let results = ranked(list);
    assert forall|k: int| 0 <= k < results.len() implies list.contains(
        #[trigger] results[k],
    ) by {
        assert(results.to_multiset().count(results[k]) > 0);
    }
    assert forall|x: Found| list.contains(x) implies #[trigger] results.contains(x) by {
        assert(list.to_multiset().count(x) > 0);
    }
    assert forall|k: int| 0 <= k < results.len() implies stations.contains(
        (#[trigger] results[k]).1,
    ) && match_score(
        query,
        search_text(results[k].1.pref@),
        search_text(results[k].1.name@),
    ) == Some(results[k].0) by {
        let m = choose|m: int| 0 <= m < list.len() && list[m] == results[k];
        assert(stations.contains(list[m].1));
    }
}

/// The best match of a search comes first. The lengths of the texts are those that a machine
/// can count.
pub proof fn lemma_search_puts_the_best_first(stations: Seq<ObservationStation>, query: Seq<char>)
    requires
        query.len() > 0,
        forall|i: int|
            0 <= i < stations.len() ==> search_text((#[trigger] stations[i]).pref@).len()
                + search_text(stations[i].name@).len() <= usize::MAX,
    ensures
        best_first(ranked(matching(stations, query))),
{
    lemma_matching_whole(stations, query);
    lemma_search_results_are_ranked(matching(stations, query));
}

/// A search finds no station more often than it is listed, whatever the limit; so none twice,
/// if none is listed twice.
pub proof fn lemma_search_repeats_no_station(
    stations: Seq<ObservationStation>,
    query: Seq<char>,
    limit: Option<usize>,
)
    ensures
        ({
            let results = places(limited(ranked(matching(stations, query)), limit));
            &&& results.to_multiset().subset_of(stations.to_multiset())
            &&& stations.no_duplicates() ==> results.no_duplicates()
        }),
{
    broadcast use vstd::seq_lib::group_to_multiset_ensures;

    let list = matching(stations, query);
    let whole = places(ranked(list));
    let results = places(limited(ranked(list), limit));
    lemma_matching_repeats_no_station(stations, query);
    lemma_ranked_keeps_places(list);
    let rest = whole.skip(results.len() as int);
    assert(whole =~= results + rest);
    vstd::seq_lib::lemma_multiset_commutative(results, rest);
    assert(results.to_multiset().subset_of(stations.to_multiset()));
    if stations.no_duplicates() {
        stations.lemma_multiset_has_no_duplicates();
        assert forall|x: ObservationStation| results.to_multiset().contains(x) implies
            results.to_multiset().count(x) == 1 by {
            assert(results.to_multiset().count(x) <= stations.to_multiset().count(x));
            assert(stations.to_multiset().contains(x));
        }
        results.lemma_multiset_has_no_duplicates_conv();
    }
}

/// A limit cuts the results of a search to the first ones and changes nothing else: a search
/// with a limit is refused as the one without, unless it asks for nothing.
pub proof fn lemma_limit_keeps_the_first(
    stations: Seq<ObservationStation>,
    query: Seq<char>,
    limit: usize,
)
    requires
        limit > 0,
    ensures
        search_error(query, Some(limit)) == search_error(query, None),
        ({
            let list = ranked(matching(stations, search_text(query)));
            let all = limited(list, None);
            limited(list, Some(limit)) == all.take(
                if limit < all.len() {
                    limit as int
                } else {
                    all.len() as int
                },
            )
        }),
{
    let list = ranked(matching(stations, search_text(query)));
    assert(list.take(list.len() as int) =~= list);
}

proof fn lemma_matching_repeats_no_station(stations: Seq<ObservationStation>, query: Seq<char>)
    ensures
        places(matching(stations, query)).to_multiset().subset_of(stations.to_multiset()),
    decreases stations.len(),
{
    broadcast use vstd::seq_lib::group_to_multiset_ensures;

    if stations.len() == 0 {
        assert(places(matching(stations, query)) =~= stations);
    } else {
        let rest = stations.drop_last();
        let s = stations.last();
        lemma_matching_repeats_no_station(rest, query);
        assert(stations =~= rest.push(s));
        let before = matching(rest, query);
        match match_score(query, search_text(s.pref@), search_text(s.name@)) {
            Some(score) => {
                assert(places(before.push((score, s))) =~= places(before).push(s));
            },
            None => {},
        }
    }
}

/// Putting matches in order keeps their stations.
proof fn lemma_ranked_keeps_places(list: Seq<Found>)
    ensures
        places(ranked(list)).to_multiset() == places(list).to_multiset(),
    decreases list.len(),
{
    broadcast use vstd::seq_lib::group_to_multiset_ensures;

    if list.len() > 0 {
        let rest = list.drop_last();
        lemma_ranked_keeps_places(rest);
        lemma_placed_keeps_places(ranked(rest), list.last());
        assert(places(list) =~= places(rest).push(list.last().1));
    }
}

proof fn lemma_placed_keeps_places(list: Seq<Found>, m: Found)
    ensures
        places(placed(list, m)).to_multiset() == places(list).to_multiset().insert(m.1),
    decreases list.len(),
{
    broadcast use vstd::seq_lib::group_to_multiset_ensures;

    if list.len() > 0 && ranks_before(m, list.last()) {
        let rest = list.drop_last();
        let last = list.last();
        lemma_placed_keeps_places(rest, m);
        assert(places(list) =~= places(rest).push(last.1));
        assert(places(placed(list, m)) =~= places(placed(rest, m)).push(last.1));
        assert(places(placed(list, m)).to_multiset() =~= places(list).to_multiset().insert(m.1));
    } else {
        assert(places(list.push(m)) =~= places(list).push(m.1));
    }
}

/// Putting matches in order keeps them all.
proof fn lemma_ranked_keeps(list: Seq<Found>)
    ensures
        ranked(list).to_multiset() == list.to_multiset(),
    decreases list.len(),
{
    broadcast use vstd::seq_lib::group_to_multiset_ensures;

    if list.len() > 0 {
        let rest = list.drop_last();
        lemma_ranked_keeps(rest);
        lemma_placed_keeps(ranked(rest), list.last());
        assert(list =~= rest.push(list.last()));
    }
}

proof fn lemma_placed_keeps(list: Seq<Found>, m: Found)
    ensures
        placed(list, m).to_multiset() == list.to_multiset().insert(m),
    decreases list.len(),
{
    broadcast use vstd::seq_lib::group_to_multiset_ensures;

    if list.len() > 0 && ranks_before(m, list.last()) {
        let rest = list.drop_last();
        lemma_placed_keeps(rest, m);
        assert(list =~= rest.push(list.last()));
        assert(placed(list, m).to_multiset() =~= list.to_multiset().insert(m));
    }
}

/// Every match has a score that is a share of something.
proof fn lemma_matching_whole(stations: Seq<ObservationStation>, query: Seq<char>)
    requires
        query.len() > 0,
        forall|i: int|
            0 <= i < stations.len() ==> search_text((#[trigger] stations[i]).pref@).len()
                + search_text(stations[i].name@).len() <= usize::MAX,
    ensures
        forall|k: int|
            0 <= k < matching(stations, query).len() ==> (#[trigger] matching(
                stations,
                query,
            )[k]).0.whole > 0,
{
    let list = matching(stations, query);
    lemma_matching(stations, query);
    assert forall|k: int| 0 <= k < list.len() implies (#[trigger] list[k]).0.whole > 0 by {
        let i = choose|i: int| 0 <= i < stations.len() && stations[i] == list[k].1;
        lemma_whole(query, search_text(stations[i].pref@), search_text(stations[i].name@));
    }
}

proof fn lemma_matching(stations: Seq<ObservationStation>, query: Seq<char>)
    ensures
        forall|k: int|
            0 <= k < matching(stations, query).len() ==> {
                &&& stations.contains((#[trigger] matching(stations, query)[k]).1)
                &&& match_score(
                    query,
                    search_text(matching(stations, query)[k].1.pref@),
                    search_text(matching(stations, query)[k].1.name@),
                ) == Some(matching(stations, query)[k].0)
            },
        forall|i: int|
            0 <= i < stations.len() ==> (match match_score(
                query,
                search_text((#[trigger] stations[i]).pref@),
                search_text(stations[i].name@),
            ) {
                Some(score) => matching(stations, query).contains((score, stations[i])),
                None => true,
            }),
    decreases stations.len(),
{
    if stations.len() > 0 {
        let n = stations.len() - 1;
        let rest = stations.drop_last();
        assert forall|i: int| 0 <= i < n implies stations[i] == #[trigger] rest[i] by {}
        lemma_matching(rest, query);
        let before = matching(rest, query);
        let now = matching(stations, query);
        let s = stations.last();
        assert(stations[n] == s);
        let (pref, name) = (search_text(s.pref@), search_text(s.name@));
        let found_now = match_score(query, pref, name);
        assert forall|k: int| 0 <= k < now.len() implies {
            &&& stations.contains((#[trigger] now[k]).1)
            &&& match_score(query, search_text(now[k].1.pref@), search_text(now[k].1.name@))
                == Some(now[k].0)
        } by {
            if k < before.len() {
                assert(now[k] == before[k]);
                assert(rest.contains(before[k].1));
                let i = choose|i: int| 0 <= i < rest.len() && rest[i] == before[k].1;
                assert(stations[i] == now[k].1);
            } else {
                assert(stations[n] == now[k].1);
            }
        }
        assert forall|i: int| 0 <= i < stations.len() implies (match match_score(
            query,
            search_text((#[trigger] stations[i]).pref@),
            search_text(stations[i].name@),
        ) {
            Some(score) => now.contains((score, stations[i])),
            None => true,
        }) by {
            if i < n {
                assert(stations[i] == rest[i]);
                match match_score(
                    query,
                    search_text(rest[i].pref@),
                    search_text(rest[i].name@),
                ) {
                    Some(score) => {
                        assert(before.contains((score, rest[i])));
                        let k = choose|k: int|
                            0 <= k < before.len() && before[k] == (score, rest[i]);
                        assert(now[k] == before[k]);
                    },
                    None => {},
                }
            } else if found_now is Some {
                assert(now[before.len() as int] == (found_now->0, s));
            }
        }
    }
}

/// A score is a share of something.
proof fn lemma_whole(query: Seq<char>, pref: Seq<char>, name: Seq<char>)
    requires
        query.len() > 0,
        pref.len() + name.len() <= usize::MAX,
        match_score(query, pref, name) is Some,
    ensures
        (match_score(query, pref, name)->0).whole > 0,
{
    if occurs(name, query) {
        lemma_occurs_len(name, query);
    }
    if occurs(pref + name, query) {
        lemma_occurs_len(pref + name, query);
    }
    match alias(pref, name) {
        Some(form) => {
            if occurs(form, query) {
                lemma_occurs_len(form, query);
            }
        },
        None => {},
    }
}

/// Putting matches in order puts the better ones first.
proof fn lemma_search_results_are_ranked(list: Seq<Found>)
    requires
        forall|i: int| 0 <= i < list.len() ==> (#[trigger] list[i]).0.whole > 0,
    ensures
        best_first(ranked(list)),
        forall|i: int| 0 <= i < ranked(list).len() ==> (#[trigger] ranked(list)[i]).0.whole > 0,
    decreases list.len(),
{
    if list.len() > 0 {
        let rest = list.drop_last();
        assert forall|i: int| 0 <= i < rest.len() implies (#[trigger] rest[i]).0.whole > 0 by {
            assert(rest[i] == list[i]);
        }
        assert(list[list.len() - 1].0.whole > 0);
        lemma_search_results_are_ranked(rest);
        lemma_placed(ranked(rest), list.last());
    }
}

proof fn lemma_placed(list: Seq<Found>, m: Found)
    requires
        m.0.whole > 0,
        forall|i: int| 0 <= i < list.len() ==> (#[trigger] list[i]).0.whole > 0,
        best_first(list),
    ensures
        forall|i: int|
            0 <= i < placed(list, m).len() ==> (#[trigger] placed(list, m)[i]) == m
                || list.contains(placed(list, m)[i]),
        forall|i: int| 0 <= i < placed(list, m).len() ==> (#[trigger] placed(list, m)[i]).0.whole
            > 0,
        best_first(placed(list, m)),
    decreases list.len(),
{
    let out = placed(list, m);
    if list.len() > 0 && ranks_before(m, list.last()) {
        let last = list.last();
        let rest = list.drop_last();
        assert(list[list.len() - 1] == last);
        assert forall|i: int| 0 <= i < rest.len() implies (#[trigger] rest[i]).0.whole > 0 by {
            assert(rest[i] == list[i]);
        }
        assert forall|i: int, j: int| 0 <= i < j < rest.len() implies !ranks_before(
            #[trigger] rest[j],
            #[trigger] rest[i],
        ) by {
            assert(rest[i] == list[i] && rest[j] == list[j]);
        }
        lemma_placed(rest, m);
        let inner = placed(rest, m);
        assert forall|i: int| 0 <= i < out.len() implies (#[trigger] out[i]) == m || list.contains(
            out[i],
        ) by {
            if i < inner.len() {
                assert(out[i] == inner[i]);
                if inner[i] != m {
                    let k = choose|k: int| 0 <= k < rest.len() && rest[k] == inner[i];
                    assert(list[k] == inner[i]);
                }
            } else {
                assert(list[list.len() - 1] == out[i]);
            }
        }
        lemma_ranks_asymmetric(m, last);
        assert forall|i: int, j: int| 0 <= i < j < out.len() implies !ranks_before(
            #[trigger] out[j],
            #[trigger] out[i],
        ) by {
            if j < inner.len() {
                assert(out[i] == inner[i] && out[j] == inner[j]);
            } else if i < inner.len() {
                assert(out[i] == inner[i]);
                if inner[i] != m {
                    let k = choose|k: int| 0 <= k < rest.len() && rest[k] == inner[i];
                    assert(list[k] == inner[i]);
                    assert(!ranks_before(list[list.len() - 1], list[k]));
                }
            }
        }
    } else {
        assert forall|i: int| 0 <= i < out.len() implies (#[trigger] out[i]) == m || list.contains(
            out[i],
        ) by {
            if i < list.len() {
                assert(list[i] == out[i]);
            }
        }
        assert forall|i: int, j: int| 0 <= i < j < out.len() implies !ranks_before(
            #[trigger] out[j],
            #[trigger] out[i],
        ) by {
            if j < list.len() {
                assert(out[i] == list[i] && out[j] == list[j]);
            } else if i < list.len() {
                let last = list[list.len() - 1];
                assert(out[i] == list[i]);
                if i < list.len() - 1 {
                    assert(!ranks_before(last, list[i]));
                    lemma_ranks(m, last, list[i]);
                }
            }
        }
    }
}

proof fn lemma_ranks_asymmetric(a: Found, b: Found)
    requires
        a.0.whole > 0,
        b.0.whole > 0,
        ranks_before(a, b),
    ensures
        !ranks_before(b, a),
{
    lemma_scores(a.0, b.0, a.0);
    lemma_precedes_chain(a.1.pref@, b.1.pref@, a.1.pref@);
    lemma_precedes_chain(a.1.name@, b.1.name@, a.1.name@);
    lemma_precedes_irreflexive(a.1.name@);
}

} // verus!
