//! The list of stations, made from what the meteorological agency publishes.

use serde_json::Value;
use sha2::{Digest, Sha256};
use vstd::prelude::*;
use vstd::string::*;

use crate::json::{as_integer, as_text, get, get_text, is_object, json_view, views, JsonView};
use crate::model::{can_be_drawn, on_globe};
use crate::reading::Measure;
use crate::text::{
    chars_of, code_point, comes_before, decimal, decimal_text, is_white, join, joined,
    lemma_precedes_transitive, lemma_precedes_trichotomy, precedes, same, text_of, texts, white,
};

verus! {

/// Where the stations are published.
pub const SOURCE: &'static str =
    "https://ds.data.jma.go.jp/eqev/data/intens-st/stations.json";

/// The prefectures by their code, which begins at 1.
pub const PREFS: [&'static str; 47] = [
    "北海道",
    "青森県",
    "岩手県",
    "宮城県",
    "秋田県",
    "山形県",
    "福島県",
    "茨城県",
    "栃木県",
    "群馬県",
    "埼玉県",
    "千葉県",
    "東京都",
    "神奈川県",
    "新潟県",
    "富山県",
    "石川県",
    "福井県",
    "山梨県",
    "長野県",
    "岐阜県",
    "静岡県",
    "愛知県",
    "三重県",
    "滋賀県",
    "京都府",
    "大阪府",
    "兵庫県",
    "奈良県",
    "和歌山県",
    "鳥取県",
    "島根県",
    "岡山県",
    "広島県",
    "山口県",
    "徳島県",
    "香川県",
    "愛媛県",
    "高知県",
    "福岡県",
    "佐賀県",
    "長崎県",
    "熊本県",
    "大分県",
    "宮崎県",
    "鹿児島県",
    "沖縄県",
];

/// The value of a row of digits; `None` if it is empty or holds anything else.
pub open spec fn digits_value(s: Seq<char>) -> Option<nat>
    decreases s.len(),
{
    if s.len() == 0 {
        None
    } else {
        let d = s.last() as int - '0' as int;
        if 0 <= d <= 9 {
            if s.len() == 1 {
                Some(d as nat)
            } else {
                match digits_value(s.drop_last()) {
                    Some(n) => Some((n * 10 + d) as nat),
                    None => None,
                }
            }
        } else {
            None
        }
    }
}

/// The whole number of 32 bits that a text stands for: digits, with or without a sign.
pub open spec fn integer_text(s: Seq<char>) -> Option<int> {
    let value = if s.len() > 0 && s[0] == '-' {
        match digits_value(s.skip(1)) {
            Some(n) => Some(-(n as int)),
            None => None,
        }
    } else {
        match digits_value(
            if s.len() > 0 && s[0] == '+' {
                s.skip(1)
            } else {
                s
            },
        ) {
            Some(n) => Some(n as int),
            None => None,
        }
    };
    match value {
        Some(n) => if i32::MIN <= n <= i32::MAX {
            Some(n)
        } else {
            None
        },
        None => None,
    }
}

/// One more than the largest magnitude of a number of 32 bits.
const TOO_LARGE: u64 = 0x8000_0001;

/// The value of digits, held at a number that is too large once it is reached.
fn read_digits(chars: &[char]) -> (r: Option<u64>)
    ensures
        match r {
            Some(n) => {
                &&& digits_value(chars@) is Some
                &&& n <= TOO_LARGE
                &&& n < TOO_LARGE ==> n == digits_value(chars@)->0
                &&& n == TOO_LARGE ==> digits_value(chars@)->0 >= TOO_LARGE
            },
            None => digits_value(chars@) is None,
        },
{
    let len: usize = chars.len();
    if len == 0 {
        return None;
    }
    let mut n: u64 = 0;
    for i in 0..len
        invariant
            len == chars@.len(),
            len > 0,
            n <= TOO_LARGE,
            i == 0 ==> n == 0,
            i > 0 ==> digits_value(chars@.take(i as int)) is Some,
            i > 0 && n < TOO_LARGE ==> n == digits_value(chars@.take(i as int))->0,
            i > 0 && n == TOO_LARGE ==> digits_value(chars@.take(i as int))->0 >= TOO_LARGE,
    {
        let c: u32 = code_point(chars[i]);
        assert(chars@.take(i + 1).drop_last() =~= chars@.take(i as int));
        assert(chars@.take(i + 1).last() == chars@[i as int]);
        if c < 0x30 || c > 0x39 {
            proof {
                lemma_digits_prefix(chars@, i + 1);
            }
            return None;
        }
        n = n * 10 + (c - 0x30) as u64;
        if n > TOO_LARGE {
            n = TOO_LARGE;
        }
    }
    assert(chars@.take(len as int) =~= chars@);
    Some(n)
}

/// What holds something else at its beginning is no row of digits.
proof fn lemma_digits_prefix(s: Seq<char>, n: int)
    requires
        0 < n <= s.len(),
        digits_value(s.take(n)) is None,
    ensures
        digits_value(s) is None,
    decreases s.len() - n,
{
    if n < s.len() {
        assert(s.take(n + 1).drop_last() =~= s.take(n));
        lemma_digits_prefix(s, n + 1);
    } else {
        assert(s.take(n) =~= s);
    }
}

/// Reads a whole number of 32 bits.
fn parse_integer(s: &str) -> (r: Option<i32>)
    ensures
        match r {
            Some(n) => integer_text(s@) == Some(n as int),
            None => integer_text(s@) is None,
        },
{
    let chars = chars_of(s);
    let n: usize = chars.len();
    let negative = n > 0 && chars[0] == '-';
    let signed = negative || (n > 0 && chars[0] == '+');
    let from: usize = if signed {
        1
    } else {
        0
    };
    let rest = &chars[from..n];
    assert(s@.skip(0) =~= s@);
    assert(rest@ =~= s@.skip(from as int));
    match read_digits(rest) {
        Some(value) => if negative {
            if value <= 0x8000_0000 {
                Some((0 - value as i64) as i32)
            } else {
                None
            }
        } else if value < 0x8000_0000 {
            Some(value as i32)
        } else {
            None
        },
        None => None,
    }
}

/// What can be wrong with what was published.
#[derive(Debug)]
pub enum ConvertError {
    Empty,
    NotObject,
    Missing { key: &'static str },
    NotInteger { key: &'static str },
    NoName,
    NotNumber { key: &'static str },
    BadCode,
    BadName,
    BadCoord { name: String },
    Duplicate { code: i32, name: String },
}

/// What can be wrong, by what the texts hold.
pub ghost enum Flaw {
    Empty,
    NotObject,
    Missing(Seq<char>),
    NotInteger(Seq<char>),
    NoName,
    NotNumber(Seq<char>),
    BadCode,
    BadName,
    BadCoord(Seq<char>),
    Duplicate(int, Seq<char>),
}

impl Flaw {
    /// How a flaw reads.
    pub open spec fn message(self) -> Seq<char> {
        match self {
            Flaw::Empty => "観測点データは空でない配列である必要があります"@,
            Flaw::NotObject => "観測点がオブジェクトではありません"@,
            Flaw::Missing(key) => "観測点に "@ + key + " がありません"@,
            Flaw::NotInteger(key) => key + " が整数ではありません"@,
            Flaw::NoName => "観測点名が文字列ではありません"@,
            Flaw::NotNumber(key) => key + " が数値ではありません"@,
            Flaw::BadCode => "不正な都道府県コード・所属です"@,
            Flaw::BadName => "不正な観測点名です"@,
            Flaw::BadCoord(name) => "不正な座標: "@ + name,
            Flaw::Duplicate(code, name) => "都道府県・観測点名の重複: "@ + decimal_text(
                code as nat,
            ) + " "@ + name,
        }
    }
}

impl ConvertError {
    /// The flaw that this error reports.
    pub open spec fn flaw(self) -> Flaw {
        match self {
            ConvertError::Empty => Flaw::Empty,
            ConvertError::NotObject => Flaw::NotObject,
            ConvertError::Missing { key } => Flaw::Missing(key@),
            ConvertError::NotInteger { key } => Flaw::NotInteger(key@),
            ConvertError::NoName => Flaw::NoName,
            ConvertError::NotNumber { key } => Flaw::NotNumber(key@),
            ConvertError::BadCode => Flaw::BadCode,
            ConvertError::BadName => Flaw::BadName,
            ConvertError::BadCoord { name } => Flaw::BadCoord(name@),
            ConvertError::Duplicate { code, name } => Flaw::Duplicate(code as int, name@),
        }
    }

    /// How the error reads. The code of a duplicate is that of a prefecture.
    pub fn message(&self) -> (r: String)
        requires
            self.flaw() matches Flaw::Duplicate(code, _) ==> 1 <= code <= 47,
        ensures
            r@ == self.flaw().message(),
    {
        match self {
            ConvertError::Empty => "観測点データは空でない配列である必要があります".to_owned(),
            ConvertError::NotObject => "観測点がオブジェクトではありません".to_owned(),
            ConvertError::Missing { key } => "観測点に ".to_owned().concat(key).concat(
                " がありません",
            ),
            ConvertError::NotInteger { key } => (*key).to_owned().concat(
                " が整数ではありません",
            ),
            ConvertError::NoName => "観測点名が文字列ではありません".to_owned(),
            ConvertError::NotNumber { key } => (*key).to_owned().concat(
                " が数値ではありません",
            ),
            ConvertError::BadCode => "不正な都道府県コード・所属です".to_owned(),
            ConvertError::BadName => "不正な観測点名です".to_owned(),
            ConvertError::BadCoord { name } => "不正な座標: ".to_owned().concat(name.as_str()),
            ConvertError::Duplicate { code, name } => "都道府県・観測点名の重複: ".to_owned().concat(
                decimal(*code as u64).as_str(),
            ).concat(" ").concat(name.as_str()),
        }
    }
}

/// A whole number of 32 bits under a key, given as a number or as a text.
pub open spec fn integer_member(v: JsonView, key: Seq<char>) -> Result<int, Flaw> {
    match v.member(key) {
        None => Err(Flaw::Missing(key)),
        Some(JsonView::Integer(n)) => if i32::MIN <= n <= i32::MAX {
            Ok(n)
        } else {
            Err(Flaw::NotInteger(key))
        },
        Some(JsonView::Text(s)) => match integer_text(s) {
            Some(n) => Ok(n),
            None => Err(Flaw::NotInteger(key)),
        },
        Some(_) => Err(Flaw::NotInteger(key)),
    }
}

/// Reads a whole number under a key.
fn integer_field(station: &Value, key: &'static str) -> (r: Result<i32, ConvertError>)
    ensures
        match r {
            Ok(n) => integer_member(json_view(*station), key@) == Ok::<int, Flaw>(n as int),
            Err(e) => integer_member(json_view(*station), key@) == Err::<int, Flaw>(e.flaw()),
        },
{
    let value = match get(station, key) {
        Some(v) => v,
        None => {
            return Err(ConvertError::Missing { key });
        },
    };
    match as_integer(value) {
        Some(n) => if -0x8000_0000 <= n && n <= 0x7fff_ffff {
            Ok(n as i32)
        } else {
            Err(ConvertError::NotInteger { key })
        },
        None => match as_text(value) {
            Some(s) => match parse_integer(s) {
                Some(n) => Ok(n),
                None => Err(ConvertError::NotInteger { key }),
            },
            None => Err(ConvertError::NotInteger { key }),
        },
    }
}

/// A number without the zeros at the end of its fraction.
pub open spec fn without_zeros(s: Seq<char>) -> Seq<char>
    decreases s.len(),
{
    if s.len() > 0 && s.last() == '0' {
        without_zeros(s.drop_last())
    } else {
        s
    }
}

/// How a coordinate is written: without needless zeros, without a point at its end, and
/// without a sign if it is zero.
pub open spec fn coord_text(s: Seq<char>) -> Seq<char> {
    let short = without_zeros(s);
    let bare = if short.len() > 0 && short.last() == '.' {
        short.drop_last()
    } else {
        short
    };
    if bare == "-0"@ {
        "0"@
    } else {
        bare
    }
}

/// Writes a coordinate that is printed with six decimals.
pub fn format_coord(shown: &str) -> (r: String)
    ensures
        r@ == coord_text(shown@),
{
    let chars = chars_of(shown);
    let mut end: usize = chars.len();
    assert(shown@.take(end as int) =~= shown@);
    while end > 0 && chars[end - 1] == '0'
        invariant
            chars@ == shown@,
            end <= chars@.len(),
            without_zeros(shown@) == without_zeros(shown@.take(end as int)),
        decreases end,
    {
        assert(shown@.take(end as int).drop_last() =~= shown@.take(end - 1));
        end = end - 1;
    }
    assert(without_zeros(shown@) == shown@.take(end as int));
    if end > 0 && chars[end - 1] == '.' {
        assert(shown@.take(end as int).drop_last() =~= shown@.take(end - 1));
        end = end - 1;
    }
    let bare = text_of(&chars[0..end]);
    assert(bare@ =~= shown@.take(end as int));
    if same(bare.as_str(), "-0") {
        "0".to_owned()
    } else {
        bare
    }
}

/// A station, ready to be written down.
#[derive(Debug)]
pub struct Entry {
    code: i32,
    name: String,
    latitude: String,
    longitude: String,
}

/// A station: the code of its prefecture, its name, and its coordinates as they are written.
pub ghost struct Row {
    pub code: int,
    pub name: Seq<char>,
    pub latitude: Seq<char>,
    pub longitude: Seq<char>,
}

impl Entry {
    spec fn row(self) -> Row {
        Row {
            code: self.code as int,
            name: self.name@,
            latitude: self.latitude@,
            longitude: self.longitude@,
        }
    }
}

/// Holds white space somewhere.
pub open spec fn has_white(s: Seq<char>) -> bool {
    exists|i: int| 0 <= i < s.len() && is_white(#[trigger] s[i])
}

fn any_white(s: &str) -> (r: bool)
    ensures
        r == has_white(s@),
{
    let chars = chars_of(s);
    for i in 0..chars.len()
        invariant
            chars@ == s@,
            forall|j: int| 0 <= j < i ==> !is_white(#[trigger] s@[j]),
    {
        if white(chars[i]) {
            assert(is_white(s@[i as int]));
            return true;
        }
    }
    false
}

/// The latitude and the longitude of a station as they were read from what was published;
/// `None` where there was no number. They are printed with six decimals.
pub type Coordinates = (Option<Measure>, Option<Measure>);

/// What is written down of a station, or what is wrong with it.
pub open spec fn row_of(v: JsonView, at: Coordinates) -> Result<Row, Flaw> {
    if !(v is Object) {
        Err(Flaw::NotObject)
    } else {
        match integer_member(v, "pref"@) {
            Err(f) => Err(f),
            Ok(code) => match integer_member(v, "affi"@) {
                Err(f) => Err(f),
                Ok(affiliation) => match v.member_text("name"@) {
                    None => Err(Flaw::NoName),
                    Some(name) => if v.member("lat"@) is None {
                        Err(Flaw::Missing("lat"@))
                    } else if at.0 is None {
                        Err(Flaw::NotNumber("lat"@))
                    } else if v.member("lon"@) is None {
                        Err(Flaw::Missing("lon"@))
                    } else if at.1 is None {
                        Err(Flaw::NotNumber("lon"@))
                    } else if !(1 <= code <= 47 && 0 <= affiliation <= 2) {
                        Err(Flaw::BadCode)
                    } else if name.len() == 0 || has_white(name) {
                        Err(Flaw::BadName)
                    } else if !on_globe((at.0->0).value, (at.1->0).value) {
                        Err(Flaw::BadCoord(name))
                    } else {
                        Ok(
                            Row {
                                code,
                                name,
                                latitude: coord_text((at.0->0).shown@),
                                longitude: coord_text((at.1->0).shown@),
                            },
                        )
                    },
                },
            },
        }
    }
}

/// Reads one station.
fn read_station(station: &Value, at: &Coordinates) -> (r: Result<Entry, ConvertError>)
    ensures
        match r {
            Ok(e) => row_of(json_view(*station), *at) == Ok::<Row, Flaw>(e.row()),
            Err(e) => row_of(json_view(*station), *at) == Err::<Row, Flaw>(e.flaw()),
        },
{
    if !is_object(station) {
        return Err(ConvertError::NotObject);
    }
    let code: i32 = match integer_field(station, "pref") {
        Ok(n) => n,
        Err(e) => {
            return Err(e);
        },
    };
    let affiliation: i32 = match integer_field(station, "affi") {
        Ok(n) => n,
        Err(e) => {
            return Err(e);
        },
    };
    let name: &str = match get_text(station, "name") {
        Some(s) => s,
        None => {
            return Err(ConvertError::NoName);
        },
    };
    if get(station, "lat").is_none() {
        return Err(ConvertError::Missing { key: "lat" });
    }
    let latitude: &Measure = match &at.0 {
        Some(m) => m,
        None => {
            return Err(ConvertError::NotNumber { key: "lat" });
        },
    };
    if get(station, "lon").is_none() {
        return Err(ConvertError::Missing { key: "lon" });
    }
    let longitude: &Measure = match &at.1 {
        Some(m) => m,
        None => {
            return Err(ConvertError::NotNumber { key: "lon" });
        },
    };
    if !(1 <= code && code <= 47 && 0 <= affiliation && affiliation <= 2) {
        return Err(ConvertError::BadCode);
    }
    if name.is_empty() || any_white(name) {
        return Err(ConvertError::BadName);
    }
    if !can_be_drawn(latitude.value, longitude.value) {
        return Err(ConvertError::BadCoord { name: name.to_owned() });
    }
    Ok(
        Entry {
            code,
            name: name.to_owned(),
            latitude: format_coord(latitude.shown.as_str()),
            longitude: format_coord(longitude.shown.as_str()),
        },
    )
}

/// The order of the list: by the code of the prefecture, then by the name.
pub open spec fn listed_before(a: Row, b: Row) -> bool {
    a.code < b.code || (a.code == b.code && precedes(a.name, b.name))
}

/// The same station.
pub open spec fn same_station(a: Row, b: Row) -> bool {
    a.code == b.code && a.name == b.name
}

/// A list with one more station in its place.
pub open spec fn filed(rows: Seq<Row>, row: Row) -> Seq<Row>
    decreases rows.len(),
{
    if rows.len() > 0 && listed_before(row, rows.last()) {
        filed(rows.drop_last(), row).push(rows.last())
    } else {
        rows.push(row)
    }
}

/// A list that holds a station.
pub open spec fn lists(rows: Seq<Row>, row: Row) -> bool {
    exists|i: int| 0 <= i < rows.len() && same_station(#[trigger] rows[i], row)
}

/// The list of the stations, in order, or what is wrong with the first that is flawed.
pub open spec fn listing(stations: Seq<JsonView>, at: Seq<Coordinates>) -> Result<Seq<Row>, Flaw>
    decreases stations.len(),
{
    if stations.len() == 0 {
        Ok(Seq::empty())
    } else {
        match listing(stations.drop_last(), at.drop_last()) {
            Err(f) => Err(f),
            Ok(rows) => match row_of(stations.last(), at.last()) {
                Err(f) => Err(f),
                Ok(row) => if lists(rows, row) {
                    Err(Flaw::Duplicate(row.code, row.name))
                } else {
                    Ok(filed(rows, row))
                },
            },
        }
    }
}

/// The line of a station.
pub open spec fn line_of(row: Row) -> Seq<char> {
    PREFS@[row.code - 1]@ + "\t"@ + row.name + "\t"@ + row.latitude + "\t"@ + row.longitude
}

/// The lines of a list.
pub open spec fn lines_of(rows: Seq<Row>) -> Seq<Seq<char>> {
    Seq::new(rows.len(), |i: int| line_of(rows[i]))
}

/// The lines of the stations, or what is wrong with them.
pub open spec fn converted(
    stations: Seq<JsonView>,
    at: Seq<Coordinates>,
) -> Result<Seq<Seq<char>>, Flaw> {
    if stations.len() == 0 {
        Err(Flaw::Empty)
    } else {
        match listing(stations, at) {
            Ok(rows) => Ok(lines_of(rows)),
            Err(f) => Err(f),
        }
    }
}

spec fn rows_of(entries: Seq<Entry>) -> Seq<Row> {
    Seq::new(entries.len(), |i: int| entries[i].row())
}

/// Whether a station goes before another.
fn goes_before(a: &Entry, b: &Entry) -> (r: bool)
    ensures
        r == listed_before(a.row(), b.row()),
{
    a.code < b.code || (a.code == b.code && comes_before(a.name.as_str(), b.name.as_str()))
}

/// Puts a station in its place.
fn file(entries: &mut Vec<Entry>, e: Entry)
    ensures
        rows_of(final(entries)@) == filed(rows_of(old(entries)@), e.row()),
{
    let ghost all = rows_of(entries@);
    let ghost row = e.row();
    let mut i: usize = entries.len();
    let ghost before = entries@;
    assert(all.take(i as int) =~= all);
    assert(filed(all, row) + all.skip(i as int) =~= filed(all, row));
    while i > 0 && goes_before(&e, &entries[i - 1])
        invariant
            i <= entries@.len(),
            entries@ == before,
            all == rows_of(entries@),
            row == e.row(),
            filed(all, row) == filed(all.take(i as int), row) + all.skip(i as int),
        decreases i,
    {
        proof {
            assert(all.take(i as int).drop_last() =~= all.take(i - 1));
            assert(all.take(i as int).last() == all[i - 1]);
            assert(filed(all.take(i - 1), row).push(all[i - 1]) + all.skip(i as int) =~= filed(
                all.take(i - 1),
                row,
            ) + all.skip(i - 1));
        }
        i = i - 1;
    }
    proof {
        if i > 0 {
            assert(all.take(i as int).last() == all[i - 1]);
        }
        assert(filed(all.take(i as int), row) == all.take(i as int).push(row));
    }
    entries.insert(i, e);
    assert(rows_of(entries@) =~= all.take(i as int).push(row) + all.skip(i as int));
}

fn is_listed(entries: &Vec<Entry>, e: &Entry) -> (r: bool)
    ensures
        r == lists(rows_of(entries@), e.row()),
{
    for i in 0..entries.len()
        invariant
            forall|j: int|
                0 <= j < i ==> !same_station(#[trigger] rows_of(entries@)[j], e.row()),
    {
        assert(rows_of(entries@)[i as int] == entries@[i as int].row());
        if entries[i].code == e.code && same(entries[i].name.as_str(), e.name.as_str()) {
            return true;
        }
    }
    false
}

/// Turns what was published into the lines of the list, in an order that does not depend on
/// the order in which it was published. Anything flawed is refused.
///
/// `at` holds the coordinates of each station as numbers.
pub fn convert(stations: &[Value], at: &[Coordinates]) -> (r: Result<Vec<String>, ConvertError>)
    requires
        stations@.len() == at@.len(),
    ensures
        match r {
            Ok(lines) => converted(views(stations@), at@) == Ok::<Seq<Seq<char>>, Flaw>(
                texts(lines@),
            ),
            Err(e) => {
                &&& converted(views(stations@), at@) == Err::<Seq<Seq<char>>, Flaw>(e.flaw())
                &&& e.flaw() matches Flaw::Duplicate(code, _) ==> 1 <= code <= 47
            },
        },
{
    let ghost all = views(stations@);
    let n: usize = stations.len();
    if n == 0 {
        return Err(ConvertError::Empty);
    }
    let mut entries: Vec<Entry> = Vec::new();
    assert(rows_of(entries@) =~= Seq::<Row>::empty());
    for i in 0..n
        invariant
            n == stations@.len(),
            n > 0,
            stations@.len() == at@.len(),
            all == views(stations@),
            listing(all.take(i as int), at@.take(i as int)) == Ok::<Seq<Row>, Flaw>(
                rows_of(entries@),
            ),
            forall|j: int| 0 <= j < entries@.len() ==> 1 <= (#[trigger] entries@[j]).code <= 47,
    {
        proof {
            assert(all.take(i + 1).drop_last() =~= all.take(i as int));
            assert(at@.take(i + 1).drop_last() =~= at@.take(i as int));
            assert(all.take(i + 1).last() == json_view(stations@[i as int]));
            assert(at@.take(i + 1).last() == at@[i as int]);
        }
        match read_station(&stations[i], &at[i]) {
            Ok(e) => {
                if is_listed(&entries, &e) {
                    proof {
                        lemma_listing(all, at@, i + 1);
                    }
                    return Err(ConvertError::Duplicate { code: e.code, name: e.name });
                }
                let ghost before = entries@;
                let ghost row = e.row();
                file(&mut entries, e);
                proof {
                    lemma_filed(rows_of(before), row);
                    assert forall|j: int| 0 <= j < entries@.len() implies 1 <= (
                    #[trigger] entries@[j]).code <= 47 by {
                        let x = rows_of(entries@)[j];
                        assert(x == entries@[j].row());
                        if x != row {
                            let k = choose|k: int|
                                0 <= k < rows_of(before).len() && rows_of(before)[k] == x;
                            assert(rows_of(before)[k] == before[k].row());
                        }
                    }
                }
            },
            Err(e) => {
                proof {
                    lemma_listing(all, at@, i + 1);
                }
                return Err(e);
            },
        }
    }
    proof {
        assert(all.take(n as int) =~= all);
        assert(at@.take(n as int) =~= at@);
    }
    let ghost rows = rows_of(entries@);
    let mut lines: Vec<String> = Vec::new();
    let prefs: [&'static str; 47] = PREFS;
    for i in 0..entries.len()
        invariant
            prefs@ == PREFS@,
            rows == rows_of(entries@),
            lines@.len() == i,
            forall|j: int| 0 <= j < i ==> texts(lines@)[j] == line_of(#[trigger] rows[j]),
            forall|j: int| 0 <= j < entries@.len() ==> 1 <= (#[trigger] entries@[j]).code <= 47,
    {
        let e = &entries[i];
        assert(rows[i as int] == e.row());
        let ghost before = lines@;
        let line = prefs[(e.code - 1) as usize].to_owned().concat("\t").concat(
            e.name.as_str(),
        ).concat("\t").concat(e.latitude.as_str()).concat("\t").concat(e.longitude.as_str());
        lines.push(line);
        assert forall|j: int| 0 <= j < i + 1 implies texts(lines@)[j] == line_of(
            #[trigger] rows[j],
        ) by {
            if j < i {
                assert(texts(lines@)[j] == texts(before)[j]);
            }
        }
    }
    assert(texts(lines@) =~= lines_of(rows));
    Ok(lines)
}

/// What is wrong with the beginning of a list is wrong with the list.
proof fn lemma_listing(stations: Seq<JsonView>, at: Seq<Coordinates>, n: int)
    requires
        0 <= n <= stations.len(),
        stations.len() == at.len(),
        listing(stations.take(n), at.take(n)) is Err,
    ensures
        listing(stations, at) == listing(stations.take(n), at.take(n)),
    decreases stations.len() - n,
{
    if n < stations.len() {
        assert(stations.take(n + 1).drop_last() =~= stations.take(n));
        assert(at.take(n + 1).drop_last() =~= at.take(n));
        lemma_listing(stations, at, n + 1);
    } else {
        assert(stations.take(n) =~= stations);
        assert(at.take(n) =~= at);
    }
}

/// A list with one more station holds it and the others, and nothing else.
proof fn lemma_filed(rows: Seq<Row>, row: Row)
    ensures
        filed(rows, row).len() == rows.len() + 1,
        forall|i: int|
            0 <= i < filed(rows, row).len() ==> (#[trigger] filed(rows, row)[i]) == row
                || rows.contains(filed(rows, row)[i]),
        filed(rows, row).contains(row),
        forall|x: Row| rows.contains(x) ==> #[trigger] filed(rows, row).contains(x),
    decreases rows.len(),
{
    let out = filed(rows, row);
    lemma_filed_keeps(rows, row);
    if rows.len() > 0 && listed_before(row, rows.last()) {
        let rest = rows.drop_last();
        lemma_filed(rest, row);
        let inner = filed(rest, row);
        assert forall|i: int| 0 <= i < out.len() implies (#[trigger] out[i]) == row
            || rows.contains(out[i]) by {
            if i < inner.len() {
                assert(out[i] == inner[i]);
                if inner[i] != row {
                    let k = choose|k: int| 0 <= k < rest.len() && rest[k] == inner[i];
                    assert(rows[k] == inner[i]);
                }
            } else {
                assert(rows[rows.len() - 1] == out[i]);
            }
        }
    } else {
        assert forall|i: int| 0 <= i < out.len() implies (#[trigger] out[i]) == row
            || rows.contains(out[i]) by {
            if i < rows.len() {
                assert(rows[i] == out[i]);
            }
        }
    }
}

proof fn lemma_filed_keeps(rows: Seq<Row>, row: Row)
    ensures
        filed(rows, row).contains(row),
        forall|x: Row| rows.contains(x) ==> #[trigger] filed(rows, row).contains(x),
    decreases rows.len(),
{
    let out = filed(rows, row);
    if rows.len() > 0 && listed_before(row, rows.last()) {
        let rest = rows.drop_last();
        lemma_filed_keeps(rest, row);
        let inner = filed(rest, row);
        assert forall|x: Row| inner.contains(x) implies #[trigger] out.contains(x) by {
            let k = choose|k: int| 0 <= k < inner.len() && inner[k] == x;
            assert(out[k] == x);
        }
        assert forall|x: Row| rows.contains(x) implies #[trigger] out.contains(x) by {
            let k = choose|k: int| 0 <= k < rows.len() && rows[k] == x;
            if k < rest.len() {
                assert(rest[k] == x);
                assert(rest.contains(x));
                assert(inner.contains(x));
            } else {
                assert(out[inner.len() as int] == x);
            }
        }
    } else {
        assert(out[rows.len() as int] == row);
        assert forall|x: Row| rows.contains(x) implies #[trigger] out.contains(x) by {
            let k = choose|k: int| 0 <= k < rows.len() && rows[k] == x;
            assert(out[k] == x);
        }
    }
}

/// A list in order, with no station twice.
pub open spec fn in_order(rows: Seq<Row>) -> bool {
    forall|i: int, j: int|
        0 <= i < j < rows.len() ==> listed_before(#[trigger] rows[i], #[trigger] rows[j])
}

/// The list is in order, has no station twice, and has one line for each station.
pub proof fn lemma_listing_in_order(stations: Seq<JsonView>, at: Seq<Coordinates>)
    requires
        stations.len() == at.len(),
        listing(stations, at) is Ok,
    ensures
        in_order(listing(stations, at)->Ok_0),
        listing(stations, at)->Ok_0.len() == stations.len(),
    decreases stations.len(),
{
    if stations.len() > 0 {
        lemma_listing_in_order(stations.drop_last(), at.drop_last());
        let rows = listing(stations.drop_last(), at.drop_last())->Ok_0;
        let row = row_of(stations.last(), at.last())->Ok_0;
        lemma_filed(rows, row);
        lemma_filed_in_order(rows, row);
    }
}

proof fn lemma_filed_in_order(rows: Seq<Row>, row: Row)
    requires
        in_order(rows),
        !lists(rows, row),
    ensures
        in_order(filed(rows, row)),
    decreases rows.len(),
{
    let out = filed(rows, row);
    lemma_filed(rows, row);
    if rows.len() > 0 {
        let last = rows.last();
        let rest = rows.drop_last();
        assert(rows[rows.len() - 1] == last);
        assert(!same_station(last, row));
        lemma_precedes_trichotomy(row.name, last.name);
        if listed_before(row, last) {
            assert(in_order(rest)) by {
                assert forall|i: int, j: int| 0 <= i < j < rest.len() implies listed_before(
                    #[trigger] rest[i],
                    #[trigger] rest[j],
                ) by {
                    assert(listed_before(rows[i], rows[j]));
                }
            }
            assert(!lists(rest, row)) by {
                if lists(rest, row) {
                    let i = choose|i: int| 0 <= i < rest.len() && same_station(rest[i], row);
                    assert(same_station(rows[i], row));
                }
            }
            lemma_filed_in_order(rest, row);
            lemma_filed(rest, row);
            let inner = filed(rest, row);
            assert forall|i: int, j: int| 0 <= i < j < out.len() implies listed_before(
                #[trigger] out[i],
                #[trigger] out[j],
            ) by {
                if j < inner.len() {
                    assert(listed_before(inner[i], inner[j]));
                } else {
                    assert(out[i] == inner[i]);
                    if inner[i] != row {
                        let k = choose|k: int| 0 <= k < rest.len() && rest[k] == inner[i];
                        assert(listed_before(rows[k], rows[rows.len() - 1]));
                    }
                }
            }
        } else {
            assert(listed_before(last, row));
            assert forall|i: int, j: int| 0 <= i < j < out.len() implies listed_before(
                #[trigger] out[i],
                #[trigger] out[j],
            ) by {
                if j < rows.len() {
                    assert(listed_before(rows[i], rows[j]));
                } else if i < rows.len() - 1 {
                    assert(listed_before(rows[i], rows[rows.len() - 1]));
                    if rows[i].code == last.code && last.code == row.code {
                        lemma_precedes_transitive(rows[i].name, last.name, row.name);
                    }
                }
            }
        }
    }
}

/// What can be listed: no station is flawed, and none is there twice.
pub open spec fn sound(stations: Seq<JsonView>, at: Seq<Coordinates>) -> bool {
    &&& forall|i: int| 0 <= i < stations.len() ==> row_of(#[trigger] stations[i], at[i]) is Ok
    &&& forall|i: int, j: int|
        0 <= i < j < stations.len() ==> !same_station(
            row_of(#[trigger] stations[i], at[i])->Ok_0,
            row_of(#[trigger] stations[j], at[j])->Ok_0,
        )
}

/// There is a list exactly of what can be listed, and it holds every station.
pub proof fn lemma_listing_holds_every_station(stations: Seq<JsonView>, at: Seq<Coordinates>)
    requires
        stations.len() == at.len(),
    ensures
        listing(stations, at) is Ok <==> sound(stations, at),
        listing(stations, at) is Ok ==> {
            &&& forall|i: int|
                0 <= i < stations.len() ==> listing(stations, at)->Ok_0.contains(
                    row_of(#[trigger] stations[i], at[i])->Ok_0,
                )
            &&& forall|x: Row| #[trigger]
                listing(stations, at)->Ok_0.contains(x) ==> exists|i: int|
                    0 <= i < stations.len() && row_of(#[trigger] stations[i], at[i]) == Ok::<
                        Row,
                        Flaw,
                    >(x)
        },
    decreases stations.len(),
{
    if stations.len() > 0 {
        let n = stations.len() - 1;
        let (rest, rest_at) = (stations.drop_last(), at.drop_last());
        lemma_listing_holds_every_station(rest, rest_at);
        assert forall|i: int| 0 <= i < n implies stations[i] == #[trigger] rest[i] && at[i]
            == rest_at[i] by {}
        if sound(stations, at) {
            assert forall|i: int| 0 <= i < rest.len() implies row_of(
                #[trigger] rest[i],
                rest_at[i],
            ) is Ok by {
                assert(row_of(stations[i], at[i]) is Ok);
            }
            assert forall|i: int, j: int| 0 <= i < j < rest.len() implies !same_station(
                row_of(#[trigger] rest[i], rest_at[i])->Ok_0,
                row_of(#[trigger] rest[j], rest_at[j])->Ok_0,
            ) by {
                assert(!same_station(
                    row_of(stations[i], at[i])->Ok_0,
                    row_of(stations[j], at[j])->Ok_0,
                ));
            }
            assert(sound(rest, rest_at));
        }
        if listing(rest, rest_at) is Ok {
            let rows = listing(rest, rest_at)->Ok_0;
            assert(stations[n] == stations.last());
            if row_of(stations.last(), at.last()) is Ok {
                let row = row_of(stations.last(), at.last())->Ok_0;
                if lists(rows, row) {
                    let k = choose|k: int|
                        0 <= k < rows.len() && same_station(#[trigger] rows[k], row);
                    assert(rows.contains(rows[k]));
                    let i = choose|i: int|
                        0 <= i < rest.len() && row_of(#[trigger] rest[i], rest_at[i]) == Ok::<
                            Row,
                            Flaw,
                        >(rows[k]);
                    assert(row_of(stations[i], at[i])->Ok_0 == rows[k]);
                    assert(same_station(
                        row_of(stations[i], at[i])->Ok_0,
                        row_of(stations[n], at[n])->Ok_0,
                    ));
                    assert(!sound(stations, at));
                } else {
                    lemma_filed(rows, row);
                    let out = filed(rows, row);
                    assert forall|i: int| 0 <= i < stations.len() implies out.contains(
                        row_of(#[trigger] stations[i], at[i])->Ok_0,
                    ) && row_of(stations[i], at[i]) is Ok by {
                        if i < n {
                            assert(row_of(rest[i], rest_at[i]) is Ok);
                            assert(rows.contains(row_of(rest[i], rest_at[i])->Ok_0));
                        }
                    }
                    assert forall|x: Row| #[trigger] out.contains(x) implies exists|i: int|
                        0 <= i < stations.len() && row_of(#[trigger] stations[i], at[i]) == Ok::<
                            Row,
                            Flaw,
                        >(x) by {
                        let k = choose|k: int| 0 <= k < out.len() && out[k] == x;
                        if out[k] == row {
                            assert(row_of(stations[n], at[n]) == Ok::<Row, Flaw>(x));
                        } else {
                            assert(rows.contains(x));
                            let i = choose|i: int|
                                0 <= i < rest.len() && row_of(#[trigger] rest[i], rest_at[i])
                                    == Ok::<Row, Flaw>(x);
                            assert(row_of(stations[i], at[i]) == Ok::<Row, Flaw>(x));
                        }
                    }
                    assert forall|i: int, j: int| 0 <= i < j < stations.len() implies !same_station(
                        row_of(#[trigger] stations[i], at[i])->Ok_0,
                        row_of(#[trigger] stations[j], at[j])->Ok_0,
                    ) by {
                        if j < n {
                            assert(!same_station(
                                row_of(rest[i], rest_at[i])->Ok_0,
                                row_of(rest[j], rest_at[j])->Ok_0,
                            ));
                        } else {
                            let x = row_of(rest[i], rest_at[i])->Ok_0;
                            assert(rows.contains(x));
                            let k = choose|k: int| 0 <= k < rows.len() && rows[k] == x;
                            assert(!same_station(rows[k], row));
                        }
                    }
                }
            } else {
                assert(!sound(stations, at));
            }
        }
    }
}

/// The list does not depend on the order in which the stations were published: `order` tells
/// where each station of the second publication stands in the first.
pub proof fn lemma_order_of_publication_is_irrelevant(
    a: Seq<JsonView>,
    at_a: Seq<Coordinates>,
    b: Seq<JsonView>,
    at_b: Seq<Coordinates>,
    order: Seq<int>,
)
    requires
        a.len() == at_a.len(),
        b.len() == at_b.len(),
        a.len() == b.len(),
        order.len() == b.len(),
        order.no_duplicates(),
        forall|i: int|
            0 <= i < b.len() ==> 0 <= #[trigger] order[i] < a.len() && b[i] == a[order[i]]
                && at_b[i] == at_a[order[i]],
        converted(a, at_a) is Ok,
    ensures
        converted(b, at_b) == converted(a, at_a),
{
    lemma_listing_holds_every_station(a, at_a);
    assert forall|i: int| 0 <= i < b.len() implies row_of(#[trigger] b[i], at_b[i]) is Ok by {
        assert(row_of(a[order[i]], at_a[order[i]]) is Ok);
    }
    assert forall|i: int, j: int| 0 <= i < j < b.len() implies !same_station(
        row_of(#[trigger] b[i], at_b[i])->Ok_0,
        row_of(#[trigger] b[j], at_b[j])->Ok_0,
    ) by {
        let (p, q) = (order[i], order[j]);
        assert(p != q);
        if p < q {
            assert(!same_station(row_of(a[p], at_a[p])->Ok_0, row_of(a[q], at_a[q])->Ok_0));
        } else {
            assert(!same_station(row_of(a[q], at_a[q])->Ok_0, row_of(a[p], at_a[p])->Ok_0));
        }
    }
    lemma_listing_holds_every_station(b, at_b);
    lemma_listing_in_order(a, at_a);
    lemma_listing_in_order(b, at_b);
    let (x, y) = (listing(b, at_b)->Ok_0, listing(a, at_a)->Ok_0);
    assert forall|i: int| 0 <= i < x.len() implies y.contains(#[trigger] x[i]) by {
        assert(x.contains(x[i]));
        let k = choose|k: int|
            0 <= k < b.len() && row_of(#[trigger] b[k], at_b[k]) == Ok::<Row, Flaw>(x[i]);
        assert(y.contains(row_of(a[order[k]], at_a[order[k]])->Ok_0));
    }
    lemma_same_order(x, y);
}

/// No station goes before itself, nor do two go before each other.
proof fn lemma_listed_before(a: Row, b: Row)
    ensures
        !listed_before(a, a),
        listed_before(a, b) ==> !listed_before(b, a),
{
    lemma_precedes_trichotomy(a.name, b.name);
}

/// A list in order that another one holds is no longer, and is the other one if it is as long.
proof fn lemma_same_order(x: Seq<Row>, y: Seq<Row>)
    requires
        in_order(x),
        in_order(y),
        forall|i: int| 0 <= i < x.len() ==> y.contains(#[trigger] x[i]),
    ensures
        x.len() <= y.len(),
        x.len() == y.len() ==> x == y,
    decreases x.len(),
{
    if x.len() > 0 {
        let n = x.len() - 1;
        let rest = x.drop_last();
        assert(y.contains(x[n]));
        let k = choose|k: int| 0 <= k < y.len() && y[k] == x[n];
        let front = y.take(k);
        assert forall|i: int| 0 <= i < rest.len() implies front.contains(#[trigger] rest[i]) by {
            assert(rest[i] == x[i]);
            assert(listed_before(x[i], x[n]));
            assert(y.contains(x[i]));
            let j = choose|j: int| 0 <= j < y.len() && y[j] == x[i];
            lemma_listed_before(x[i], x[n]);
            if j > k {
                assert(listed_before(y[k], y[j]));
            }
            assert(front[j] == rest[i]);
        }
        assert(in_order(rest)) by {
            assert forall|i: int, j: int| 0 <= i < j < rest.len() implies listed_before(
                #[trigger] rest[i],
                #[trigger] rest[j],
            ) by {
                assert(listed_before(x[i], x[j]));
            }
        }
        assert(in_order(front)) by {
            assert forall|i: int, j: int| 0 <= i < j < front.len() implies listed_before(
                #[trigger] front[i],
                #[trigger] front[j],
            ) by {
                assert(listed_before(y[i], y[j]));
            }
        }
        lemma_same_order(rest, front);
        if x.len() == y.len() {
            assert(x =~= rest.push(x[n]));
            assert(y =~= front.push(y[k]));
        }
    } else if y.len() == 0 {
        assert(x =~= y);
    }
}

/// A year with a 29th of February.
pub open spec fn leap(year: int) -> bool {
    year % 4 == 0 && (year % 100 != 0 || year % 400 == 0)
}

/// How many days a year has.
pub open spec fn year_length(year: int) -> int {
    if leap(year) {
        366
    } else {
        365
    }
}

/// How many days a month has.
pub open spec fn month_length(year: int, month: int) -> int {
    if month == 2 {
        if leap(year) {
            29
        } else {
            28
        }
    } else if month == 4 || month == 6 || month == 9 || month == 11 {
        30
    } else {
        31
    }
}

/// How many days passed from the beginning of 1970 to that of a year.
pub open spec fn days_to_year(year: int) -> int
    decreases year - 1970,
{
    if year <= 1970 {
        0
    } else {
        days_to_year(year - 1) + year_length(year - 1)
    }
}

/// How many days passed from the beginning of a year to that of a month.
pub open spec fn days_to_month(year: int, month: int) -> int
    decreases month,
{
    if month <= 1 {
        0
    } else {
        days_to_month(year, month - 1) + month_length(year, month - 1)
    }
}

/// A day of the calendar from 1970 on.
pub open spec fn is_date(year: int, month: int, day: int) -> bool {
    &&& year >= 1970
    &&& 1 <= month <= 12
    &&& 1 <= day <= month_length(year, month)
}

/// How many days passed from the beginning of 1970 to a day.
pub open spec fn day_number(year: int, month: int, day: int) -> int {
    days_to_year(year) + days_to_month(year, month) + day - 1
}

/// How many leap years there are before a year, counted from the year 1 on.
spec fn leaps_before(year: int) -> int {
    (year - 1) / 4 - (year - 1) / 100 + (year - 1) / 400
}

proof fn lemma_days_to_year(year: int)
    requires
        year >= 1970,
    ensures
        days_to_year(year) == 365 * (year - 1970) + leaps_before(year) - leaps_before(1970),
    decreases year,
{
    if year > 1970 {
        lemma_days_to_year(year - 1);
    }
}

proof fn lemma_year_total(year: int)
    ensures
        days_to_month(year, 12) + month_length(year, 12) == year_length(year),
{
    reveal_with_fuel(days_to_month, 13);
}

/// Whole cycles change quotients by whole numbers, and remainders not at all.
proof fn lemma_quotients(n: int, cycles: int)
    ensures
        (n + 400 * cycles) / 4 == n / 4 + 100 * cycles,
        (n + 400 * cycles) / 100 == n / 100 + 4 * cycles,
        (n + 400 * cycles) / 400 == n / 400 + cycles,
        (n + 400 * cycles) % 4 == n % 4,
        (n + 400 * cycles) % 100 == n % 100,
        (n + 400 * cycles) % 400 == n % 400,
{
}

/// Four hundred years have 146097 days.
proof fn lemma_cycle(year: int, cycles: int)
    requires
        year >= 1970,
        cycles >= 0,
    ensures
        days_to_year(year + 400 * cycles) == days_to_year(year) + 146097 * cycles,
        leap(year + 400 * cycles) == leap(year),
{
    lemma_quotients(year, cycles);
    lemma_quotients(year - 1, cycles);
    lemma_days_to_year(year);
    lemma_days_to_year(year + 400 * cycles);
    assert(year + 400 * cycles - 1 == year - 1 + 400 * cycles);
}

/// The day of the calendar that begins so many days after the beginning of 1970: its year, its
/// month and its day.
pub fn civil_date(days: u64) -> (r: (u64, u64, u64))
    requires
        days <= 213_503_982_334_601,
    ensures
        is_date(r.0 as int, r.1 as int, r.2 as int),
        day_number(r.0 as int, r.1 as int, r.2 as int) == days,
{
    let cycles: u64 = days / 146_097;
    let within: u64 = days % 146_097;
    let mut year: u64 = 1970;
    let mut left: u64 = within;
    assert(days_to_year(1970) == 0);
    proof {
        lemma_cycle(1970, 1);
    }
    while left >= length_of_year(year)
        invariant
            1970 <= year <= 2370,
            days_to_year(year as int) + left == within,
            within < 146_097,
            days_to_year(2370) == 146_097,
        decreases left,
    {
        let length: u64 = length_of_year(year);
        left = left - length;
        year = year + 1;
    }
    let mut month: u64 = 1;
    assert(days_to_month(year as int, 1) == 0);
    proof {
        lemma_year_total(year as int);
    }
    while left >= length_of_month(year, month)
        invariant
            1970 <= year <= 2370,
            1 <= month <= 12,
            days_to_year(year as int) + days_to_month(year as int, month as int) + left == within,
            days_to_month(year as int, month as int) + left < year_length(year as int),
            days_to_month(year as int, 12) + month_length(year as int, 12) == year_length(
                year as int,
            ),
        decreases left,
    {
        let length: u64 = length_of_month(year, month);
        left = left - length;
        month = month + 1;
    }
    proof {
        lemma_cycle(year as int, cycles as int);
        lemma_month_cycle(year as int, cycles as int, month as int);
    }
    (year + 400 * cycles, month, left + 1)
}

proof fn lemma_month_cycle(year: int, cycles: int, month: int)
    requires
        year >= 1970,
        cycles >= 0,
    ensures
        days_to_month(year + 400 * cycles, month) == days_to_month(year, month),
        month_length(year + 400 * cycles, month) == month_length(year, month),
    decreases month,
{
    lemma_cycle(year, cycles);
    if month > 1 {
        lemma_month_cycle(year, cycles, month - 1);
    }
}

fn is_leap(year: u64) -> (r: bool)
    ensures
        r == leap(year as int),
{
    year % 4 == 0 && (year % 100 != 0 || year % 400 == 0)
}

fn length_of_year(year: u64) -> (r: u64)
    ensures
        r == year_length(year as int),
{
    if is_leap(year) {
        366
    } else {
        365
    }
}

fn length_of_month(year: u64, month: u64) -> (r: u64)
    ensures
        r == month_length(year as int, month as int),
{
    if month == 2 {
        if is_leap(year) {
            29
        } else {
            28
        }
    } else if month == 4 || month == 6 || month == 9 || month == 11 {
        30
    } else {
        31
    }
}

/// No two days of the calendar have the same number.
pub proof fn lemma_day_number_unique(
    y1: int,
    m1: int,
    d1: int,
    y2: int,
    m2: int,
    d2: int,
)
    requires
        is_date(y1, m1, d1),
        is_date(y2, m2, d2),
        day_number(y1, m1, d1) == day_number(y2, m2, d2),
    ensures
        y1 == y2,
        m1 == m2,
        d1 == d2,
{
    lemma_within_year(y1, m1, d1);
    lemma_within_year(y2, m2, d2);
    if y1 < y2 {
        lemma_years_grow(y1 + 1, y2);
    } else if y2 < y1 {
        lemma_years_grow(y2 + 1, y1);
    } else if m1 < m2 {
        lemma_months_grow(y1, m1 + 1, m2);
    } else if m2 < m1 {
        lemma_months_grow(y1, m2 + 1, m1);
    }
}

proof fn lemma_within_year(year: int, month: int, day: int)
    requires
        is_date(year, month, day),
    ensures
        0 <= days_to_month(year, month) + day - 1 < year_length(year),
{
    lemma_year_total(year);
    lemma_months_grow(year, 1, month);
    if month < 12 {
        lemma_months_grow(year, month + 1, 12);
    }
}

proof fn lemma_years_grow(a: int, b: int)
    requires
        1970 <= a <= b,
    ensures
        days_to_year(a) <= days_to_year(b),
    decreases b - a,
{
    if a < b {
        lemma_years_grow(a, b - 1);
    }
}

proof fn lemma_months_grow(year: int, a: int, b: int)
    requires
        1 <= a <= b,
    ensures
        days_to_month(year, a) <= days_to_month(year, b),
    decreases b - a,
{
    if a < b {
        lemma_months_grow(year, a, b - 1);
    }
}

/// A number with at least so many digits.
pub open spec fn padded(n: nat, width: nat) -> Seq<char> {
    let digits = decimal_text(n);
    if digits.len() < width {
        Seq::new((width - digits.len()) as nat, |i: int| '0') + digits
    } else {
        digits
    }
}

fn pad(n: u64, width: usize) -> (r: String)
    ensures
        r@ == padded(n as nat, width as nat),
{
    let digits = decimal(n);
    let len: usize = digits.as_str().unicode_len();
    let mut out = String::new();
    if len < width {
        for i in 0..(width - len)
            invariant
                out@ == Seq::new(i as nat, |j: int| '0'),
        {
            out.push('0');
            assert(out@ =~= Seq::new((i + 1) as nat, |j: int| '0'));
        }
    }
    let r = out.concat(digits.as_str());
    assert(r@ =~= padded(n as nat, width as nat));
    r
}

/// How a day is written.
pub open spec fn date_text(year: int, month: int, day: int) -> Seq<char> {
    padded(year as nat, 4) + "-"@ + padded(month as nat, 2) + "-"@ + padded(day as nat, 2)
}

/// Writes the day, in universal time, of so many seconds after the beginning of 1970.
pub fn utc_date(seconds: u64) -> (r: String)
    ensures
        exists|year: int, month: int, day: int|
            {
                &&& is_date(year, month, day)
                &&& day_number(year, month, day) == seconds / 86_400
                &&& r@ == #[trigger] date_text(year, month, day)
            },
{
    let (year, month, day) = civil_date(seconds / 86_400);
    let r = pad(year, 4).concat("-").concat(pad(month, 2).as_str()).concat("-").concat(
        pad(day, 2).as_str(),
    );
    assert(r@ == date_text(year as int, month as int, day as int));
    r
}

/// The SHA-256 digest of bytes.
pub uninterp spec fn sha256(bytes: Seq<u8>) -> Seq<u8>;

/// Trusted: `Sha256::digest` is a function of the bytes, and has 32 bytes.
#[verifier::external_body]
fn digest_of(bytes: &[u8]) -> (r: Vec<u8>)
    ensures
        r@ == sha256(bytes@),
        r@.len() == 32,
{
    Sha256::digest(bytes).to_vec()
}

/// A digit of base sixteen.
pub open spec fn hex_digit(n: int) -> char {
    if n < 10 {
        (n + '0' as int) as char
    } else {
        (n - 10 + 'a' as int) as char
    }
}

/// Bytes in base sixteen, two digits each.
pub open spec fn hex_text(bytes: Seq<u8>) -> Seq<char>
    decreases bytes.len(),
{
    if bytes.len() == 0 {
        Seq::empty()
    } else {
        let b = bytes.last() as int;
        hex_text(bytes.drop_last()).push(hex_digit(b / 16)).push(hex_digit(b % 16))
    }
}

fn hex_char(n: u8) -> (r: char)
    requires
        n < 16,
    ensures
        r == hex_digit(n as int),
{
    if n < 10 {
        (n + 0x30) as char
    } else {
        (n - 10 + 0x61) as char
    }
}

/// Writes bytes in base sixteen.
pub fn hex(bytes: &[u8]) -> (r: String)
    ensures
        r@ == hex_text(bytes@),
{
    let mut out = String::new();
    assert(bytes@.take(0) =~= Seq::<u8>::empty());
    for i in 0..bytes.len()
        invariant
            out@ == hex_text(bytes@.take(i as int)),
    {
        assert(bytes@.take(i + 1).drop_last() =~= bytes@.take(i as int));
        let b = bytes[i];
        out.push(hex_char(b / 16));
        out.push(hex_char(b % 16));
    }
    assert(bytes@.take(bytes@.len() as int) =~= bytes@);
    out
}

/// What stands above the list: where it comes from, when it was made and from what.
pub open spec fn header_text(date: Seq<char>, digest: Seq<u8>, count: nat) -> Seq<char> {
    "# 出典: 気象庁 震度観測点 "@ + SOURCE@
        + "\n# quake-alert-botが都道府県名へ変換・整列（座標は公開JSONの値を使用）\n# 生成日(UTC): "@
        + date + " / 入力SHA-256: "@ + hex_text(digest) + "\n# 観測点数: "@ + decimal_text(count)
        + "\n# 都道府県\t観測点名\t緯度\t経度\n"@
}

/// The file with the list.
pub open spec fn file_text(
    date: Seq<char>,
    digest: Seq<u8>,
    lines: Seq<Seq<char>>,
) -> Seq<char> {
    header_text(date, digest, lines.len()) + joined(lines, "\n"@) + "\n"@
}

/// Writes the file with the list, given the digest of what was published.
pub fn file_with_digest(date: &str, digest: &[u8], lines: &[String]) -> (r: String)
    ensures
        r@ == file_text(date@, digest@, texts(lines@)),
{
    let n: usize = lines.len();
    let header = "# 出典: 気象庁 震度観測点 ".to_owned().concat(SOURCE).concat(
        "\n# quake-alert-botが都道府県名へ変換・整列（座標は公開JSONの値を使用）\n# 生成日(UTC): ",
    ).concat(date).concat(" / 入力SHA-256: ").concat(hex(digest).as_str()).concat(
        "\n# 観測点数: ",
    ).concat(decimal(n as u64).as_str()).concat(
        "\n# 都道府県\t観測点名\t緯度\t経度\n",
    );
    header.concat(join(lines, "\n").as_str()).concat("\n")
}

/// Writes the file with the list. `raw` is what was published, as it was received.
pub fn station_file(raw: &[u8], date: &str, lines: &[String]) -> (r: String)
    ensures
        r@ == file_text(date@, sha256(raw@), texts(lines@)),
{
    let digest = digest_of(raw);
    file_with_digest(date, &digest, lines)
}

} // verus!
