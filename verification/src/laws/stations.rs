//! What is promised of the list of stations: what it is made from, how it is written, and when.

use vstd::prelude::*;

use crate::json::JsonView;
use crate::laws::notices::{is_zero, lies_within};
use crate::laws::texts::{lemma_decimal_stands_for_the_number, number_in};
use crate::stations::{
    civil_date, coord_text, converted, date_text, day_number, days_to_month, digits_value,
    file_text, hex_digit, hex_text, integer_member, integer_text, is_date, line_of, listing, lists,
    padded, row_of, same_station, without_zeros, year_length, Coordinates, Flaw, Row, PREFS,
};
use crate::text::{decimal_text, is_white, joined};

verus! {

/// Decimal digits, at least one.
pub open spec fn are_digits(s: Seq<char>) -> bool {
    s.len() > 0 && forall|i: int| 0 <= i < s.len() ==> '0' <= #[trigger] s[i] <= '9'
}

/// A text stands for a number of 32 bits exactly if it is made of digits, with or without a
/// sign before them, and the number is one of 32 bits.
pub proof fn lemma_which_texts_are_numbers(s: Seq<char>, n: int)
    ensures
        integer_text(s) == Some(n) <==> -0x8000_0000 <= n <= 0x7fff_ffff && {
            ||| are_digits(s) && n == number_in(s)
            ||| s.len() > 0 && s[0] == '+' && are_digits(s.skip(1)) && n == number_in(s.skip(1))
            ||| s.len() > 0 && s[0] == '-' && are_digits(s.skip(1)) && n == -number_in(s.skip(1))
        },
{
    lemma_digits(s);
    lemma_digits(s.skip(1));
    if s.len() > 0 && (s[0] == '+' || s[0] == '-') {
        assert(!('0' <= s[0] <= '9'));
        assert(!are_digits(s));
    }
}

proof fn lemma_digits(s: Seq<char>)
    ensures
        digits_value(s) is Some <==> are_digits(s),
        digits_value(s) matches Some(n) ==> n == number_in(s),
    decreases s.len(),
{
    if s.len() > 0 {
        let rest = s.drop_last();
        lemma_digits(rest);
        assert(s[s.len() - 1] == s.last());
        assert forall|i: int| 0 <= i < rest.len() implies s[i] == #[trigger] rest[i] by {}
        if s.len() == 1 {
            assert(number_in(rest) == 0);
        }
        if digits_value(s) is Some {
            assert forall|i: int| 0 <= i < s.len() implies '0' <= #[trigger] s[i] <= '9' by {
                if i < rest.len() {
                    assert(rest[i] == s[i]);
                }
            }
        }
        if are_digits(s) {
            assert forall|i: int| 0 <= i < rest.len() implies '0' <= #[trigger] rest[i]
                <= '9' by {
                assert(s[i] == rest[i]);
            }
            assert('0' <= s[s.len() - 1] <= '9');
        }
    }
}

/// What is published under a key is a whole number, or a text that stands for one.
pub proof fn lemma_numbers_come_as_numbers_or_texts(v: JsonView, key: Seq<char>, n: int)
    ensures
        v.member(key) is None ==> integer_member(v, key) == Err::<int, Flaw>(Flaw::Missing(key)),
        v.member(key) is Some && !(integer_member(v, key) is Ok) ==> integer_member(v, key)
            == Err::<int, Flaw>(Flaw::NotInteger(key)),
        integer_member(v, key) == Ok::<int, Flaw>(n) <==> {
            ||| v.member(key) == Some(JsonView::Integer(n)) && -0x8000_0000 <= n <= 0x7fff_ffff
            ||| v.member_text(key) matches Some(s) && integer_text(s) == Some(n)
        },
{
}

/// A latitude and a longitude that can be drawn.
pub open spec fn can_be_drawn_at(latitude: u64, longitude: u64) -> bool {
    &&& lies_within(latitude, 0x4056_8000_0000_0000)
    &&& lies_within(longitude, 0x4066_8000_0000_0000)
    &&& !(is_zero(latitude) && is_zero(longitude))
}

/// A station that can be listed: it has the code of a prefecture from 1 to 47, an affiliation
/// from 0 to 2, a name without white space, and coordinates that can be drawn.
pub open spec fn can_be_listed(
    v: JsonView,
    at: Coordinates,
    code: int,
    affiliation: int,
    name: Seq<char>,
) -> bool {
    &&& v is Object
    &&& integer_member(v, "pref"@) == Ok::<int, Flaw>(code)
    &&& integer_member(v, "affi"@) == Ok::<int, Flaw>(affiliation)
    &&& v.member_text("name"@) == Some(name)
    &&& v.member("lat"@) is Some && v.member("lon"@) is Some
    &&& at.0 is Some && at.1 is Some
    &&& 1 <= code <= 47
    &&& 0 <= affiliation <= 2
    &&& name.len() > 0
    &&& forall|i: int| 0 <= i < name.len() ==> !is_white(#[trigger] name[i])
    &&& can_be_drawn_at((at.0->0).value.bits, (at.1->0).value.bits)
}

/// What is listed of a station is the code of its prefecture, its name and its coordinates; a
/// station that cannot be listed is refused.
pub proof fn lemma_what_is_listed_of_a_station(
    v: JsonView,
    at: Coordinates,
    code: int,
    affiliation: int,
    name: Seq<char>,
)
    ensures
        can_be_listed(v, at, code, affiliation, name) ==> row_of(v, at) == Ok::<Row, Flaw>(
            Row {
                code,
                name,
                latitude: coord_text((at.0->0).shown@),
                longitude: coord_text((at.1->0).shown@),
            },
        ),
        row_of(v, at) is Ok ==> exists|a: int|
            #[trigger] can_be_listed(
                v,
                at,
                row_of(v, at)->Ok_0.code,
                a,
                row_of(v, at)->Ok_0.name,
            ),
{
    if row_of(v, at) is Ok {
        let row = row_of(v, at)->Ok_0;
        let a = integer_member(v, "affi"@)->Ok_0;
        assert(can_be_listed(v, at, row.code, a, row.name));
    }
}

/// A station is refused for the first thing that is wrong with it: that it is no object, that
/// its prefecture or its affiliation is no number, that it has no name, that a coordinate is
/// missing or no number, then a code, a name or coordinates that cannot be.
pub proof fn lemma_why_a_station_is_refused(v: JsonView, at: Coordinates)
    ensures
        ({
            let flaw = row_of(v, at);
            let pref = integer_member(v, "pref"@);
            let affi = integer_member(v, "affi"@);
            let read = v is Object && pref is Ok && affi is Ok && v.member_text("name"@) is Some;
            let placed = read && v.member("lat"@) is Some && at.0 is Some && v.member("lon"@)
                is Some && at.1 is Some;
            let named = placed && 1 <= pref->Ok_0 <= 47 && 0 <= affi->Ok_0 <= 2;
            let name = v.member_text("name"@)->0;
            &&& !(v is Object) ==> flaw == Err::<Row, Flaw>(Flaw::NotObject)
            &&& v is Object && pref is Err ==> flaw == Err::<Row, Flaw>(pref->Err_0)
            &&& v is Object && pref is Ok && affi is Err ==> flaw == Err::<Row, Flaw>(affi->Err_0)
            &&& v is Object && pref is Ok && affi is Ok && !read ==> flaw == Err::<Row, Flaw>(
                Flaw::NoName,
            )
            &&& read && v.member("lat"@) is None ==> flaw == Err::<Row, Flaw>(Flaw::Missing("lat"@))
            &&& read && v.member("lat"@) is Some && at.0 is None ==> flaw == Err::<Row, Flaw>(
                Flaw::NotNumber("lat"@),
            )
            &&& read && v.member("lat"@) is Some && at.0 is Some && v.member("lon"@) is None
                ==> flaw == Err::<Row, Flaw>(Flaw::Missing("lon"@))
            &&& read && v.member("lat"@) is Some && at.0 is Some && v.member("lon"@) is Some
                && at.1 is None ==> flaw == Err::<Row, Flaw>(Flaw::NotNumber("lon"@))
            &&& placed && !named ==> flaw == Err::<Row, Flaw>(Flaw::BadCode)
            &&& named && (name.len() == 0 || exists|i: int|
                0 <= i < name.len() && is_white(#[trigger] name[i])) ==> flaw == Err::<Row, Flaw>(
                Flaw::BadName,
            )
            &&& named && name.len() > 0 && (forall|i: int|
                0 <= i < name.len() ==> !is_white(#[trigger] name[i])) && !can_be_drawn_at(
                (at.0->0).value.bits,
                (at.1->0).value.bits,
            ) ==> flaw == Err::<Row, Flaw>(Flaw::BadCoord(name))
        }),
{
}

/// The list is refused for the first station that cannot be listed, or that is listed already.
pub proof fn lemma_the_first_flaw_is_reported(stations: Seq<JsonView>, at: Seq<Coordinates>)
    requires
        stations.len() == at.len(),
    ensures
        stations.len() == 0 ==> converted(stations, at) == Err::<Seq<Seq<char>>, Flaw>(Flaw::Empty),
        listing(stations, at) matches Err(flaw) ==> exists|i: int|
            #![trigger stations[i]]
            {
                &&& 0 <= i < stations.len()
                &&& listing(stations.subrange(0, i), at.subrange(0, i)) is Ok
                &&& match row_of(stations[i], at[i]) {
                    Err(f) => flaw == f,
                    Ok(row) => flaw == Flaw::Duplicate(row.code, row.name) && exists|j: int|
                        0 <= j < i && row_of(#[trigger] stations[j], at[j]) is Ok && row_of(
                            stations[j],
                            at[j],
                        )->Ok_0.code == row.code && row_of(stations[j], at[j])->Ok_0.name
                            == row.name,
                }
            },
    decreases stations.len(),
{
    if stations.len() > 0 {
        let n = stations.len() - 1;
        let (rest, rest_at) = (stations.drop_last(), at.drop_last());
        lemma_the_first_flaw_is_reported(rest, rest_at);
        match listing(rest, rest_at) {
            Err(flaw) => {
                let i = choose|i: int|
                    #![trigger rest[i]]
                    {
                        &&& 0 <= i < rest.len()
                        &&& listing(rest.subrange(0, i), rest_at.subrange(0, i)) is Ok
                        &&& match row_of(rest[i], rest_at[i]) {
                            Err(f) => flaw == f,
                            Ok(row) => flaw == Flaw::Duplicate(row.code, row.name) && exists|
                                j: int,
                            |
                                0 <= j < i && row_of(#[trigger] rest[j], rest_at[j]) is Ok
                                    && row_of(rest[j], rest_at[j])->Ok_0.code == row.code
                                    && row_of(rest[j], rest_at[j])->Ok_0.name == row.name,
                        }
                    };
                assert(stations[i] == rest[i] && at[i] == rest_at[i]);
                assert(rest.subrange(0, i) =~= stations.subrange(0, i));
                assert(rest_at.subrange(0, i) =~= at.subrange(0, i));
                match row_of(rest[i], rest_at[i]) {
                    Err(_) => {},
                    Ok(row) => {
                        let j = choose|j: int|
                            0 <= j < i && row_of(#[trigger] rest[j], rest_at[j]) is Ok && row_of(
                                rest[j],
                                rest_at[j],
                            )->Ok_0.code == row.code && row_of(rest[j], rest_at[j])->Ok_0.name
                                == row.name;
                        assert(stations[j] == rest[j] && at[j] == rest_at[j]);
                    },
                }
            },
            Ok(rows) => {
                assert(stations.subrange(0, n) =~= rest);
                assert(at.subrange(0, n) =~= rest_at);
                assert(stations[n] == stations.last() && at[n] == at.last());
                match row_of(stations.last(), at.last()) {
                    Err(_) => {},
                    Ok(row) => {
                        if lists(rows, row) {
                            crate::stations::lemma_listing_holds_every_station(rest, rest_at);
                            let k = choose|k: int|
                                0 <= k < rows.len() && same_station(#[trigger] rows[k], row);
                            assert(rows.contains(rows[k]));
                            let j = choose|j: int|
                                0 <= j < rest.len() && row_of(#[trigger] rest[j], rest_at[j])
                                    == Ok::<Row, Flaw>(rows[k]);
                            assert(stations[j] == rest[j] && at[j] == rest_at[j]);
                            assert(row_of(stations[j], at[j])->Ok_0.code == row.code);
                        }
                    },
                }
            },
        }
    }
}

/// There is one line for each row, in order: the prefecture of its code, its name and its
/// coordinates, with a tab between neighbours.
pub proof fn lemma_how_the_list_is_written(stations: Seq<JsonView>, at: Seq<Coordinates>, i: int)
    requires
        listing(stations, at) is Ok,
        stations.len() > 0,
        0 <= i < listing(stations, at)->Ok_0.len(),
    ensures
        ({
            let rows = listing(stations, at)->Ok_0;
            &&& converted(stations, at) is Ok
            &&& converted(stations, at)->Ok_0.len() == rows.len()
            &&& converted(stations, at)->Ok_0[i] == joined(
                seq![
                    PREFS@[rows[i].code - 1]@,
                    rows[i].name,
                    rows[i].latitude,
                    rows[i].longitude,
                ],
                "\t"@,
            )
        }),
{
    let row = listing(stations, at)->Ok_0[i];
    let (a, b, c, d) = (PREFS@[row.code - 1]@, row.name, row.latitude, row.longitude);
    let all = seq![a, b, c, d];
    reveal_with_fuel(joined, 5);
    assert(all.drop_last() =~= seq![a, b, c]);
    assert(seq![a, b, c].drop_last() =~= seq![a, b]);
    assert(seq![a, b].drop_last() =~= seq![a]);
    assert(joined(all, "\t"@) =~= line_of(row));
}

/// The trailing zeros of a coordinate are left out, and the point if nothing is left behind it;
/// a zero has no sign.
pub proof fn lemma_how_coordinates_are_written(s: Seq<char>) -> (n: int)
    ensures
        0 <= n <= s.len(),
        forall|i: int| n <= i < s.len() ==> #[trigger] s[i] == '0',
        n > 0 ==> s[n - 1] != '0',
        ({
            let bare = if n > 0 && s[n - 1] == '.' {
                s.subrange(0, n - 1)
            } else {
                s.subrange(0, n)
            };
            coord_text(s) == if bare == seq!['-', '0'] {
                seq!['0']
            } else {
                bare
            }
        }),
{
    let n = lemma_zeros(s);
    let short = s.subrange(0, n);
    if n > 0 && s[n - 1] == '.' {
        assert(short.drop_last() =~= s.subrange(0, n - 1));
    }
    reveal_strlit("-0");
    reveal_strlit("0");
    assert("-0"@ =~= seq!['-', '0']);
    assert("0"@ =~= seq!['0']);
    n
}

proof fn lemma_zeros(s: Seq<char>) -> (n: int)
    ensures
        0 <= n <= s.len(),
        without_zeros(s) == s.subrange(0, n),
        forall|i: int| n <= i < s.len() ==> #[trigger] s[i] == '0',
        n > 0 ==> s[n - 1] != '0',
    decreases s.len(),
{
    if s.len() > 0 && s.last() == '0' {
        let rest = s.drop_last();
        let n = lemma_zeros(rest);
        assert(rest.subrange(0, n) =~= s.subrange(0, n));
        assert forall|i: int| n <= i < s.len() implies #[trigger] s[i] == '0' by {
            if i < rest.len() {
                assert(rest[i] == s[i]);
            }
        }
        n
    } else {
        assert(s.subrange(0, s.len() as int) =~= s);
        s.len() as int
    }
}

/// The prefectures by their codes.
pub proof fn lemma_prefectures_by_code()
    ensures
        PREFS@.len() == 47,
        PREFS@[0]@ == "北海道"@ && PREFS@[1]@ == "青森県"@ && PREFS@[2]@ == "岩手県"@,
        PREFS@[3]@ == "宮城県"@ && PREFS@[4]@ == "秋田県"@ && PREFS@[5]@ == "山形県"@,
        PREFS@[6]@ == "福島県"@ && PREFS@[7]@ == "茨城県"@ && PREFS@[8]@ == "栃木県"@,
        PREFS@[9]@ == "群馬県"@ && PREFS@[10]@ == "埼玉県"@ && PREFS@[11]@ == "千葉県"@,
        PREFS@[12]@ == "東京都"@ && PREFS@[13]@ == "神奈川県"@ && PREFS@[14]@ == "新潟県"@,
        PREFS@[15]@ == "富山県"@ && PREFS@[16]@ == "石川県"@ && PREFS@[17]@ == "福井県"@,
        PREFS@[18]@ == "山梨県"@ && PREFS@[19]@ == "長野県"@ && PREFS@[20]@ == "岐阜県"@,
        PREFS@[21]@ == "静岡県"@ && PREFS@[22]@ == "愛知県"@ && PREFS@[23]@ == "三重県"@,
        PREFS@[24]@ == "滋賀県"@ && PREFS@[25]@ == "京都府"@ && PREFS@[26]@ == "大阪府"@,
        PREFS@[27]@ == "兵庫県"@ && PREFS@[28]@ == "奈良県"@ && PREFS@[29]@ == "和歌山県"@,
        PREFS@[30]@ == "鳥取県"@ && PREFS@[31]@ == "島根県"@ && PREFS@[32]@ == "岡山県"@,
        PREFS@[33]@ == "広島県"@ && PREFS@[34]@ == "山口県"@ && PREFS@[35]@ == "徳島県"@,
        PREFS@[36]@ == "香川県"@ && PREFS@[37]@ == "愛媛県"@ && PREFS@[38]@ == "高知県"@,
        PREFS@[39]@ == "福岡県"@ && PREFS@[40]@ == "佐賀県"@ && PREFS@[41]@ == "長崎県"@,
        PREFS@[42]@ == "熊本県"@ && PREFS@[43]@ == "大分県"@ && PREFS@[44]@ == "宮崎県"@,
        PREFS@[45]@ == "鹿児島県"@ && PREFS@[46]@ == "沖縄県"@,
{
}

/// How many days a month of the calendar has.
pub open spec fn days_in(year: int, month: int) -> int {
    if month == 2 {
        if year % 400 == 0 || year % 4 == 0 && year % 100 != 0 {
            29
        } else {
            28
        }
    } else if seq![4int, 6, 9, 11].contains(month) {
        30
    } else {
        31
    }
}

/// Days are counted from the first of January 1970 on, one after another: by the day of the
/// month, then from the last of a month to the first of the next, and from the end of December
/// to the first of January.
pub proof fn lemma_days_follow_each_other(year: int, month: int, day: int)
    requires
        year >= 1970,
        1 <= month <= 12,
    ensures
        day_number(1970, 1, 1) == 0,
        is_date(year, month, day) <==> 1 <= day <= days_in(year, month),
        day_number(year, month, day + 1) == day_number(year, month, day) + 1,
        month < 12 ==> day_number(year, month + 1, 1) == day_number(
            year,
            month,
            days_in(year, month),
        ) + 1,
        day_number(year + 1, 1, 1) == day_number(year, 12, 31) + 1,
{
    let s = seq![4int, 6, 9, 11];
    assert(s[0] == 4 && s[1] == 6 && s[2] == 9 && s[3] == 11);
    assert(s.contains(month) <==> month == 4 || month == 6 || month == 9 || month == 11);
    reveal_with_fuel(days_to_month, 14);
    assert(days_to_month(year, 12) + 31 == year_length(year));
}

/// Every number of days stands for the day of the calendar that has it.
pub proof fn lemma_days_are_dated(days: u64, r: (u64, u64, u64))
    requires
        call_ensures(civil_date, (days,), r),
    ensures
        r.0 >= 1970,
        1 <= r.1 <= 12,
        1 <= r.2 <= days_in(r.0 as int, r.1 as int),
        day_number(r.0 as int, r.1 as int, r.2 as int) == days,
{
    let s = seq![4int, 6, 9, 11];
    assert(s[0] == 4 && s[1] == 6 && s[2] == 9 && s[3] == 11);
}

/// A number is written with the digits that stand for it, with zeros before them where it would
/// be too short.
pub proof fn lemma_how_numbers_are_padded(n: nat, width: nat)
    ensures
        padded(n, width).len() >= width,
        decimal_text(n).len() >= width ==> padded(n, width) == decimal_text(n),
        decimal_text(n).len() < width ==> padded(n, width).len() == width,
        number_in(padded(n, width)) == n,
{
    lemma_decimal_stands_for_the_number(n);
    let digits = decimal_text(n);
    if digits.len() < width {
        let k = (width - digits.len()) as nat;
        lemma_zeros_before(k, digits);
    }
}

proof fn lemma_zeros_before(k: nat, digits: Seq<char>)
    ensures
        number_in(Seq::new(k, |i: int| '0') + digits) == number_in(digits),
    decreases digits.len(), k,
{
    let zeros = Seq::new(k, |i: int| '0');
    if digits.len() == 0 {
        assert(zeros + digits =~= zeros);
        if k > 0 {
            let m = (k - 1) as nat;
            let fewer = Seq::new(m, |i: int| '0');
            assert(zeros.drop_last() =~= fewer);
            assert(fewer + digits =~= fewer);
            lemma_zeros_before(m, digits);
        }
    } else {
        assert((zeros + digits).drop_last() =~= zeros + digits.drop_last());
        lemma_zeros_before(k, digits.drop_last());
    }
}

/// A day is written with its year, its month and its day, in digits and with hyphens.
pub proof fn lemma_how_days_are_written(year: int, month: int, day: int)
    requires
        1000 <= year <= 9999,
        1 <= month <= 12,
        1 <= day <= 31,
    ensures
        ({
            let s = date_text(year, month, day);
            &&& s.len() == 10
            &&& number_in(s.subrange(0, 4)) == year
            &&& s[4] == '-'
            &&& number_in(s.subrange(5, 7)) == month
            &&& s[7] == '-'
            &&& number_in(s.subrange(8, 10)) == day
        }),
{
    let s = date_text(year, month, day);
    let (y, m, d) = (padded(year as nat, 4), padded(month as nat, 2), padded(day as nat, 2));
    lemma_how_numbers_are_padded(year as nat, 4);
    lemma_how_numbers_are_padded(month as nat, 2);
    lemma_how_numbers_are_padded(day as nat, 2);
    reveal_with_fuel(decimal_text, 5);
    assert(y.len() == 4 && m.len() == 2 && d.len() == 2);
    reveal_strlit("-");
    assert(s.subrange(0, 4) =~= y);
    assert(s.subrange(5, 7) =~= m);
    assert(s.subrange(8, 10) =~= d);
}

/// Bytes are written one after another, each with the two digits of base sixteen that stand for
/// it.
pub proof fn lemma_how_bytes_are_written(a: Seq<u8>, b: Seq<u8>, byte: u8)
    ensures
        hex_text(Seq::empty()).len() == 0,
        hex_text(a + b) == hex_text(a) + hex_text(b),
        hex_text(seq![byte]) == seq![
            "0123456789abcdef"@[byte as int / 16],
            "0123456789abcdef"@[byte as int % 16],
        ],
    decreases b.len(),
{
    if b.len() == 0 {
        assert(a + b =~= a);
        assert(hex_text(a) + hex_text(b) =~= hex_text(a));
    } else {
        lemma_how_bytes_are_written(a, b.drop_last(), byte);
        assert((a + b).drop_last() =~= a + b.drop_last());
        assert((a + b).last() == b.last());
        assert(hex_text(a + b) =~= hex_text(a) + hex_text(b));
    }
    lemma_hex(byte as int / 16);
    lemma_hex(byte as int % 16);
    assert(seq![byte].drop_last() =~= Seq::<u8>::empty());
    assert(seq![byte].last() == byte);
    assert(hex_text(Seq::<u8>::empty()) =~= Seq::<char>::empty());
    assert(hex_text(seq![byte]) =~= seq![
        hex_digit(byte as int / 16),
        hex_digit(byte as int % 16),
    ]);
}

proof fn lemma_hex(n: int)
    requires
        0 <= n < 16,
    ensures
        hex_digit(n) == "0123456789abcdef"@[n],
{
    reveal_strlit("0123456789abcdef");
    let s = "0123456789abcdef"@;
    assert(s[0] == '0' && s[1] == '1' && s[2] == '2' && s[3] == '3' && s[4] == '4');
    assert(s[5] == '5' && s[6] == '6' && s[7] == '7' && s[8] == '8' && s[9] == '9');
    assert(s[10] == 'a' && s[11] == 'b' && s[12] == 'c' && s[13] == 'd' && s[14] == 'e');
    assert(s[15] == 'f');
}

/// The file names its source, the day, the digest of what it was made from and the number of
/// stations, and then has every line, each with a line feed after it.
pub proof fn lemma_what_the_file_holds(date: Seq<char>, digest: Seq<u8>, lines: Seq<Seq<char>>)
    ensures
        file_text(date, digest, lines) == "# 出典: 気象庁 震度観測点 "@
            + "https://ds.data.jma.go.jp/eqev/data/intens-st/stations.json"@
            + "\n# quake-alert-botが都道府県名へ変換・整列（座標は公開JSONの値を使用）\n# 生成日(UTC): "@
            + date + " / 入力SHA-256: "@ + hex_text(digest) + "\n# 観測点数: "@ + decimal_text(
            lines.len(),
        ) + "\n# 都道府県\t観測点名\t緯度\t経度\n"@ + joined(lines, "\n"@) + "\n"@,
{
}

} // verus!
