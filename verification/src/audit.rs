//! How the names in earthquake reports compare with the list of stations.

use serde_json::Value;
use vstd::prelude::*;
use vstd::string::*;

use crate::geo::{data_lines, lines_in, pieces, split, unrolled};
use crate::json::{get, get_list, get_text, get_truth, json_view, views, JsonView};
use crate::text::{
    comes_before, decimal, decimal_text, decimal_wide, lemma_precedes_transitive,
    lemma_precedes_trichotomy, precedes, same, text_of, texts,
};
use crate::tracker::{keys, lemma_position, position};

verus! {

/// The prefecture and the name of a place.
pub type PlaceName = (Seq<char>, Seq<char>);

/// The prefecture and the name of a place.
#[derive(Debug)]
pub struct Named {
    pub pref: String,
    pub addr: String,
}

impl Named {
    /// What the two texts hold.
    pub open spec fn place(self) -> PlaceName {
        (self.pref@, self.addr@)
    }
}

/// What is counted in the reports of one kind.
#[derive(Debug)]
pub struct Summary {
    pub reports: u64,
    pub points: u128,
    pub area_count: u128,
    /// The stations, with how often each occurs.
    pub names: Vec<(Named, u128)>,
    /// The areas, each once.
    pub area_names: Vec<Named>,
}

/// What is counted in the reports of one kind.
#[verifier::ext_equal]
pub ghost struct Tally {
    pub reports: nat,
    pub points: nat,
    pub area_count: nat,
    pub names: Seq<(PlaceName, nat)>,
    pub area_names: Seq<PlaceName>,
}

/// What names and their counts hold.
pub open spec fn counted_names(list: Seq<(Named, u128)>) -> Seq<(PlaceName, nat)> {
    Seq::new(list.len(), |i: int| (list[i].0.place(), list[i].1 as nat))
}

/// What names hold.
pub open spec fn plain_names(list: Seq<Named>) -> Seq<PlaceName> {
    Seq::new(list.len(), |i: int| list[i].place())
}

impl Summary {
    /// What was counted.
    pub open spec fn tally(self) -> Tally {
        Tally {
            reports: self.reports as nat,
            points: self.points as nat,
            area_count: self.area_count as nat,
            names: counted_names(self.names@),
            area_names: plain_names(self.area_names@),
        }
    }

    /// No count exceeds that of the points.
    pub open spec fn bounded(self) -> bool {
        &&& self.area_count <= self.points
        &&& forall|i: int| 0 <= i < self.names@.len() ==> (#[trigger] self.names@[i]).1
            <= self.points
    }
}

/// Nothing was counted.
pub open spec fn blank_tally() -> Tally {
    Tally {
        reports: 0,
        points: 0,
        area_count: 0,
        names: Seq::empty(),
        area_names: Seq::empty(),
    }
}

/// The text under a key, empty if there is none.
pub open spec fn text_or_empty(v: JsonView, key: Seq<char>) -> Seq<char> {
    match v.member_text(key) {
        Some(s) => s,
        None => Seq::empty(),
    }
}

/// The text under a key, empty if there is none.
fn string_field(value: &Value, key: &str) -> (r: String)
    ensures
        r@ == text_or_empty(json_view(*value), key@),
{
    match get_text(value, key) {
        Some(s) => s.to_owned(),
        None => String::new(),
    }
}

/// The place that a point names.
pub open spec fn place_of(point: JsonView) -> PlaceName {
    (text_or_empty(point, "pref"@), text_or_empty(point, "addr"@))
}

/// Whether a point names an area.
pub open spec fn names_area(point: JsonView) -> bool {
    point.member_bool("isArea"@) == Some(true)
}

/// Names with one more occurrence of one.
pub open spec fn once_more(names: Seq<(PlaceName, nat)>, place: PlaceName) -> Seq<
    (PlaceName, nat),
> {
    match position(names, place) {
        Some(i) => names.update(i, (place, names[i].1 + 1)),
        None => names.push((place, 1)),
    }
}

/// A tally with one more point: areas and stations are counted apart.
pub open spec fn with_point(t: Tally, point: JsonView) -> Tally {
    let place = place_of(point);
    if names_area(point) {
        Tally {
            points: t.points + 1,
            area_count: t.area_count + 1,
            area_names: if t.area_names.contains(place) {
                t.area_names
            } else {
                t.area_names.push(place)
            },
            ..t
        }
    } else {
        Tally { points: t.points + 1, names: once_more(t.names, place), ..t }
    }
}

/// A tally with more points.
pub open spec fn with_points(t: Tally, points: Seq<JsonView>) -> Tally
    decreases points.len(),
{
    if points.len() == 0 {
        t
    } else {
        with_point(with_points(t, points.drop_last()), points.last())
    }
}

/// The points of a report.
pub open spec fn points_of(report: JsonView) -> Seq<JsonView> {
    match report.member_list("points"@) {
        Some(points) => points,
        None => Seq::empty(),
    }
}

/// A tally with one more report.
pub open spec fn with_report(t: Tally, report: JsonView) -> Tally {
    with_points(Tally { reports: t.reports + 1, ..t }, points_of(report))
}

/// The kind of a report, empty if it names none.
pub open spec fn kind_of_report(report: JsonView) -> Seq<char> {
    match report.member("issue"@) {
        Some(issue) => text_or_empty(issue, "type"@),
        None => Seq::empty(),
    }
}

/// The tallies by kind with one more, in the order of the kinds.
pub open spec fn shelved(list: Seq<(Seq<char>, Tally)>, e: (Seq<char>, Tally)) -> Seq<
    (Seq<char>, Tally),
>
    decreases list.len(),
{
    if list.len() > 0 && precedes(e.0, list.last().0) {
        shelved(list.drop_last(), e).push(list.last())
    } else {
        list.push(e)
    }
}

/// The tallies of reports by kind, in the order of the kinds.
pub open spec fn audited(reports: Seq<JsonView>) -> Seq<(Seq<char>, Tally)>
    decreases reports.len(),
{
    if reports.len() == 0 {
        Seq::empty()
    } else {
        let before = audited(reports.drop_last());
        let report = reports.last();
        let kind = kind_of_report(report);
        match position(before, kind) {
            Some(i) => before.update(i, (kind, with_report(before[i].1, report))),
            None => shelved(before, (kind, with_report(blank_tally(), report))),
        }
    }
}

/// What tallies by kind hold.
pub open spec fn tallies(list: Seq<(String, Summary)>) -> Seq<(Seq<char>, Tally)> {
    Seq::new(list.len(), |i: int| (list[i].0@, list[i].1.tally()))
}

impl Summary {
    fn blank() -> (r: Summary)
        ensures
            r.tally() == blank_tally(),
            r.bounded(),
            r.points == 0,
            r.reports == 0,
    {
        let r = Summary {
            reports: 0,
            points: 0,
            area_count: 0,
            names: Vec::new(),
            area_names: Vec::new(),
        };
        assert(r.tally() =~= blank_tally());
        r
    }

    /// Counts one more point.
    fn add_point(&mut self, point: &Value)
        requires
            old(self).bounded(),
            old(self).points < u128::MAX,
        ensures
            final(self).bounded(),
            final(self).points == old(self).points + 1,
            final(self).reports == old(self).reports,
            final(self).tally() == with_point(old(self).tally(), json_view(*point)),
    {
        let ghost before = self.tally();
        let ghost old_names = self.names@;
        let ghost view = json_view(*point);
        let place = Named { pref: string_field(point, "pref"), addr: string_field(point, "addr") };
        let is_area = match get_truth(point, "isArea") {
            Some(b) => b,
            None => false,
        };
        let ghost key = place.place();
        self.points = self.points + 1;
        if is_area {
            self.area_count = self.area_count + 1;
            let n: usize = self.area_names.len();
            let mut i: usize = 0;
            while i < n && !same_place(&self.area_names[i], &place)
                invariant
                    n == self.area_names@.len(),
                    i <= n,
                    key == place.place(),
                    forall|j: int|
                        0 <= j < i ==> #[trigger] plain_names(self.area_names@)[j] != key,
                decreases n - i,
            {
                assert(plain_names(self.area_names@)[i as int] == self.area_names@[i as int].place());
                i = i + 1;
            }
            if i == n {
                assert(!before.area_names.contains(key));
                self.area_names.push(place);
                assert(plain_names(self.area_names@) =~= before.area_names.push(key));
            } else {
                assert(plain_names(self.area_names@)[i as int] == key);
            }
            assert(self.tally() =~= with_point(before, view));
        } else {
            proof {
                lemma_position(before.names, key);
            }
            let n: usize = self.names.len();
            let mut i: usize = 0;
            while i < n && !same_place(&self.names[i].0, &place)
                invariant
                    n == self.names@.len(),
                    i <= n,
                    key == place.place(),
                    self.names@ == old_names,
                    before.names == counted_names(self.names@),
                    forall|j: int| 0 <= j < i ==> (#[trigger] before.names[j]).0 != key,
                decreases n - i,
            {
                assert(before.names[i as int].0 == self.names@[i as int].0.place());
                i = i + 1;
            }
            if i == n {
                assert(position(before.names, key) is None);
                self.names.push((place, 1));
                assert(counted_names(self.names@) =~= before.names.push((key, 1)));
            } else {
                assert(before.names[i as int].0 == self.names@[i as int].0.place());
                assert(position(before.names, key) == Some(i as int));
                assert(old_names[i as int].1 <= before.points);
                let count: u128 = self.names[i].1;
                self.names[i].1 = count + 1;
                assert(counted_names(self.names@) =~= before.names.update(
                    i as int,
                    (key, (count + 1) as nat),
                ));
            }
            assert forall|j: int| 0 <= j < self.names@.len() implies (
            #[trigger] self.names@[j]).1 <= self.points by {
                if j != i && j < old_names.len() {
                    assert(self.names@[j] == old_names[j]);
                }
            }
            assert(self.tally() =~= with_point(before, view));
        }
    }

    /// Counts one more report.
    fn add_report(&mut self, report: &Value, reports_before: usize)
        requires
            old(self).bounded(),
            old(self).reports <= reports_before < usize::MAX,
            old(self).points <= reports_before * 0xffff_ffff_ffff_ffff,
        ensures
            final(self).bounded(),
            final(self).reports <= reports_before + 1,
            final(self).points <= (reports_before + 1) * 0xffff_ffff_ffff_ffff,
            final(self).tally() == with_report(old(self).tally(), json_view(*report)),
    {
        let ghost before = self.tally();
        self.reports = self.reports + 1;
        let ghost start = Tally { reports: before.reports + 1, ..before };
        assert(self.tally() =~= start);
        match get_list(report, "points") {
            Some(points) => {
                let ghost all = views(points@);
                for k in 0..points.len()
                    invariant
                        all == views(points@),
                        self.bounded(),
                        self.reports <= reports_before + 1,
                        reports_before < usize::MAX,
                        self.points <= reports_before * 0xffff_ffff_ffff_ffff + k,
                        self.tally() == with_points(start, all.take(k as int)),
                {
                    assert(all.take(k + 1).drop_last() =~= all.take(k as int));
                    assert(all.take(k + 1).last() == json_view(points@[k as int]));
                    self.add_point(&points[k]);
                }
                assert(all.take(all.len() as int) =~= all);
            },
            None => {},
        }
    }
}

fn same_place(a: &Named, b: &Named) -> (r: bool)
    ensures
        r == (a.place() == b.place()),
{
    same(a.pref.as_str(), b.pref.as_str()) && same(a.addr.as_str(), b.addr.as_str())
}

/// Counts the points of reports, by the kind of the report.
pub fn audit(reports: &[Value]) -> (r: Vec<(String, Summary)>)
    ensures
        tallies(r@) == audited(views(reports@)),
{
    let ghost all = views(reports@);
    let n: usize = reports.len();
    let mut list: Vec<(String, Summary)> = Vec::new();
    assert(tallies(list@) =~= Seq::<(Seq<char>, Tally)>::empty());
    for i in 0..n
        invariant
            n == reports@.len(),
            all == views(reports@),
            tallies(list@) == audited(all.take(i as int)),
            forall|k: int|
                0 <= k < list@.len() ==> (#[trigger] list@[k]).1.bounded() && list@[k].1.reports
                    <= i && list@[k].1.points <= i * 0xffff_ffff_ffff_ffff,
    {
        let report = &reports[i];
        let ghost before = tallies(list@);
        let ghost held = list@;
        proof {
            assert(all.take(i + 1).drop_last() =~= all.take(i as int));
            assert(all.take(i + 1).last() == json_view(*report));
        }
        let kind: String = match get(report, "issue") {
            Some(issue) => string_field(issue, "type"),
            None => String::new(),
        };
        assert(kind@ =~= kind_of_report(json_view(*report)));
        proof {
            lemma_position(before, kind@);
        }
        let len: usize = list.len();
        let mut at: usize = 0;
        while at < len && !same(list[at].0.as_str(), kind.as_str())
            invariant
                len == list@.len(),
                at <= len,
                list@ == held,
                before == tallies(list@),
                forall|j: int| 0 <= j < at ==> (#[trigger] before[j]).0 != kind@,
            decreases len - at,
        {
            assert(before[at as int].0 == list@[at as int].0@);
            at = at + 1;
        }
        if at < len {
            assert(before[at as int] == (list@[at as int].0@, list@[at as int].1.tally()));
            assert(position(before, kind@) == Some(at as int));
            list[at].1.add_report(report, i);
            assert(tallies(list@) =~= before.update(
                at as int,
                (kind@, with_report(before[at as int].1, json_view(*report))),
            ));
        } else {
            assert(position(before, kind@) is None);
            let mut fresh = Summary::blank();
            fresh.add_report(report, i);
            shelve(&mut list, kind, fresh);
        }
        assert forall|k: int| 0 <= k < list@.len() implies (#[trigger] list@[k]).1.bounded()
            && list@[k].1.reports <= i + 1 && list@[k].1.points <= (i + 1)
            * 0xffff_ffff_ffff_ffff by {
            if at < len {
                if k != at {
                    assert(list@[k] == held[k]);
                }
            }
        }
    }
    assert(all.take(n as int) =~= all);
    list
}

/// Puts a summary in its place.
fn shelve(list: &mut Vec<(String, Summary)>, kind: String, summary: Summary)
    ensures
        tallies(final(list)@) == shelved(tallies(old(list)@), (kind@, summary.tally())),
        forall|k: int|
            0 <= k < final(list)@.len() ==> (#[trigger] final(list)@[k]).1 == summary
                || exists|j: int| 0 <= j < old(list)@.len() && final(list)@[k] == old(list)@[j],
{
    let ghost all = tallies(list@);
    let ghost held = list@;
    let ghost e = (kind@, summary.tally());
    let ghost s = summary;
    let mut i: usize = list.len();
    assert(all.take(i as int) =~= all);
    assert(shelved(all, e) + all.skip(i as int) =~= shelved(all, e));
    while i > 0 && comes_before(kind.as_str(), list[i - 1].0.as_str())
        invariant
            i <= list@.len(),
            list@ == held,
            all == tallies(list@),
            e.0 == kind@,
            shelved(all, e) == shelved(all.take(i as int), e) + all.skip(i as int),
        decreases i,
    {
        proof {
            assert(all.take(i as int).drop_last() =~= all.take(i - 1));
            assert(all.take(i as int).last() == all[i - 1]);
            assert(all[i - 1].0 == list@[i - 1].0@);
            assert(shelved(all.take(i - 1), e).push(all[i - 1]) + all.skip(i as int) =~= shelved(
                all.take(i - 1),
                e,
            ) + all.skip(i - 1));
        }
        i = i - 1;
    }
    proof {
        if i > 0 {
            assert(all.take(i as int).last() == all[i - 1]);
            assert(all[i - 1].0 == list@[i - 1].0@);
        }
        assert(shelved(all.take(i as int), e) == all.take(i as int).push(e));
    }
    list.insert(i, (kind, summary));
    assert(tallies(list@) =~= all.take(i as int).push(e) + all.skip(i as int));
    assert forall|k: int| 0 <= k < list@.len() implies (#[trigger] list@[k]).1 == s || exists|j: int|
        0 <= j < held.len() && list@[k] == held[j] by {
        if k < i {
            assert(list@[k] == held[k]);
        } else if k > i {
            assert(list@[k] == held[k - 1]);
        }
    }
}

/// How often all names together occur.
pub open spec fn occurrences(names: Seq<(PlaceName, nat)>) -> nat
    decreases names.len(),
{
    if names.len() == 0 {
        0
    } else {
        occurrences(names.drop_last()) + names.last().1
    }
}

/// A tally in which every point counts once: as an area, or as an occurrence of a name. No
/// name is listed twice.
pub open spec fn consistent(t: Tally) -> bool {
    &&& t.area_count + occurrences(t.names) == t.points
    &&& keys(t.names).no_duplicates()
    &&& t.area_names.no_duplicates()
}

/// Every point of every report counts once, as an area or as an occurrence of a name, and no
/// name is listed twice. The kinds of reports are in order, each of them once.
pub proof fn lemma_every_point_counts_once(reports: Seq<JsonView>)
    ensures
        forall|i: int|
            0 <= i < audited(reports).len() ==> consistent((#[trigger] audited(reports)[i]).1),
        forall|i: int, j: int|
            0 <= i < j < audited(reports).len() ==> precedes(
                (#[trigger] audited(reports)[i]).0,
                (#[trigger] audited(reports)[j]).0,
            ),
    decreases reports.len(),
{
    if reports.len() > 0 {
        let before = audited(reports.drop_last());
        let report = reports.last();
        let kind = kind_of_report(report);
        lemma_every_point_counts_once(reports.drop_last());
        lemma_position(before, kind);
        match position(before, kind) {
            Some(i) => {
                let t = before[i].1;
                lemma_points_count_once(
                    Tally { reports: t.reports + 1, ..t },
                    points_of(report),
                );
            },
            None => {
                let t = blank_tally();
                lemma_points_count_once(
                    Tally { reports: t.reports + 1, ..t },
                    points_of(report),
                );
                lemma_shelved(before, (kind, with_report(t, report)));
            },
        }
    }
}

proof fn lemma_points_count_once(t: Tally, points: Seq<JsonView>)
    requires
        consistent(t),
    ensures
        consistent(with_points(t, points)),
    decreases points.len(),
{
    if points.len() > 0 {
        let before = with_points(t, points.drop_last());
        lemma_points_count_once(t, points.drop_last());
        let place = place_of(points.last());
        if names_area(points.last()) {
            if !before.area_names.contains(place) {
                let longer = before.area_names.push(place);
                assert forall|i: int, j: int| 0 <= i < longer.len() && 0 <= j < longer.len() && i
                    != j implies longer[i] != longer[j] by {
                    if i < before.area_names.len() {
                        assert(before.area_names.contains(before.area_names[i]));
                    }
                    if j < before.area_names.len() {
                        assert(before.area_names.contains(before.area_names[j]));
                    }
                }
            }
        } else {
            lemma_once_more(before.names, place);
        }
    }
}

proof fn lemma_once_more(names: Seq<(PlaceName, nat)>, place: PlaceName)
    requires
        keys(names).no_duplicates(),
    ensures
        occurrences(once_more(names, place)) == occurrences(names) + 1,
        keys(once_more(names, place)).no_duplicates(),
{
    lemma_position(names, place);
    match position(names, place) {
        Some(i) => {
            lemma_occurrences_update(names, i, (place, names[i].1 + 1));
            assert(keys(once_more(names, place)) =~= keys(names));
        },
        None => {
            let longer = names.push((place, 1));
            assert(longer.drop_last() =~= names);
            assert forall|i: int, j: int| 0 <= i < longer.len() && 0 <= j < longer.len() && i
                != j implies keys(longer)[i] != keys(longer)[j] by {
                if i < names.len() && j < names.len() {
                    assert(keys(longer)[i] == keys(names)[i]);
                    assert(keys(longer)[j] == keys(names)[j]);
                } else if i < names.len() {
                    assert(names[i].0 != place);
                } else {
                    assert(names[j].0 != place);
                }
            }
        },
    }
}

proof fn lemma_occurrences_update(names: Seq<(PlaceName, nat)>, i: int, e: (PlaceName, nat))
    requires
        0 <= i < names.len(),
    ensures
        occurrences(names.update(i, e)) == occurrences(names) + e.1 - names[i].1,
    decreases names.len(),
{
    let n = names.len() - 1;
    if i == n {
        assert(names.update(i, e).drop_last() =~= names.drop_last());
    } else {
        assert(names.update(i, e).drop_last() =~= names.drop_last().update(i, e));
        lemma_occurrences_update(names.drop_last(), i, e);
    }
}

proof fn lemma_shelved(list: Seq<(Seq<char>, Tally)>, e: (Seq<char>, Tally))
    requires
        consistent(e.1),
        forall|i: int| 0 <= i < list.len() ==> (#[trigger] list[i]).0 != e.0,
        forall|i: int| 0 <= i < list.len() ==> consistent((#[trigger] list[i]).1),
        forall|i: int, j: int|
            0 <= i < j < list.len() ==> precedes(
                (#[trigger] list[i]).0,
                (#[trigger] list[j]).0,
            ),
    ensures
        shelved(list, e).len() == list.len() + 1,
        forall|i: int|
            0 <= i < shelved(list, e).len() ==> (#[trigger] shelved(list, e)[i]) == e
                || list.contains(shelved(list, e)[i]),
        forall|i: int|
            0 <= i < shelved(list, e).len() ==> consistent((#[trigger] shelved(list, e)[i]).1),
        forall|i: int, j: int|
            0 <= i < j < shelved(list, e).len() ==> precedes(
                (#[trigger] shelved(list, e)[i]).0,
                (#[trigger] shelved(list, e)[j]).0,
            ),
    decreases list.len(),
{
    let out = shelved(list, e);
    if list.len() > 0 && precedes(e.0, list.last().0) {
        let n = list.len() - 1;
        let rest = list.drop_last();
        assert forall|i: int| 0 <= i < n implies list[i] == #[trigger] rest[i] by {}
        assert forall|i: int, j: int| 0 <= i < j < rest.len() implies precedes(
            (#[trigger] rest[i]).0,
            (#[trigger] rest[j]).0,
        ) by {
            assert(precedes(list[i].0, list[j].0));
        }
        lemma_shelved(rest, e);
        let inner = shelved(rest, e);
        assert forall|i: int| 0 <= i < out.len() implies (#[trigger] out[i]) == e || list.contains(
            out[i],
        ) by {
            if i < inner.len() {
                assert(out[i] == inner[i]);
                if inner[i] != e {
                    let k = choose|k: int| 0 <= k < rest.len() && rest[k] == inner[i];
                    assert(list[k] == inner[i]);
                }
            } else {
                assert(list[n] == out[i]);
            }
        }
        assert forall|i: int| 0 <= i < out.len() implies consistent((#[trigger] out[i]).1) by {
            if i < inner.len() {
                assert(out[i] == inner[i]);
            } else {
                assert(out[i] == list[n]);
            }
        }
        assert forall|i: int, j: int| 0 <= i < j < out.len() implies precedes(
            (#[trigger] out[i]).0,
            (#[trigger] out[j]).0,
        ) by {
            if j < inner.len() {
                assert(out[i] == inner[i] && out[j] == inner[j]);
            } else {
                assert(out[i] == inner[i]);
                if inner[i] != e {
                    let k = choose|k: int| 0 <= k < rest.len() && rest[k] == inner[i];
                    assert(precedes(list[k].0, list[n].0));
                }
            }
        }
    } else {
        assert forall|i: int| 0 <= i < out.len() implies (#[trigger] out[i]) == e || list.contains(
            out[i],
        ) by {
            if i < list.len() {
                assert(list[i] == out[i]);
            }
        }
        assert forall|i: int, j: int| 0 <= i < j < out.len() implies precedes(
            (#[trigger] out[i]).0,
            (#[trigger] out[j]).0,
        ) by {
            if j < list.len() {
                assert(out[i] == list[i] && out[j] == list[j]);
            } else {
                let last = list[list.len() - 1];
                assert(last.0 != e.0);
                lemma_precedes_trichotomy(e.0, last.0);
                assert(out[i] == list[i]);
                if i < list.len() - 1 {
                    assert(precedes(list[i].0, last.0));
                    lemma_precedes_transitive(list[i].0, last.0, e.0);
                }
            }
        }
    }
}

/// The places of a list of stations; an error is the first line with other than four columns.
/// Empty lines are passed over.
pub open spec fn places_in(lines: Seq<Seq<char>>) -> Result<Seq<PlaceName>, Seq<char>>
    decreases lines.len(),
{
    if lines.len() == 0 {
        Ok(Seq::empty())
    } else {
        match places_in(lines.drop_last()) {
            Err(line) => Err(line),
            Ok(before) => {
                let line = lines.last();
                let cols = pieces(line, '\t');
                if line.len() == 0 {
                    Ok(before)
                } else if cols.len() != 4 {
                    Err(line)
                } else {
                    Ok(before.push((cols[0], cols[1])))
                }
            },
        }
    }
}

/// Reads the places of a list of stations; an error is the first line that is no station.
pub fn station_places(tsv: &str) -> (r: Result<Vec<Named>, String>)
    ensures
        match r {
            Ok(list) => places_in(data_lines(tsv@)) == Ok::<Seq<PlaceName>, Seq<char>>(
                plain_names(list@),
            ),
            Err(line) => places_in(data_lines(tsv@)) == Err::<Seq<PlaceName>, Seq<char>>(line@),
        },
{
    let lines = lines_in(tsv);
    let ghost all = data_lines(tsv@);
    let n: usize = lines.len();
    let mut list: Vec<Named> = Vec::new();
    assert(plain_names(list@) =~= Seq::<PlaceName>::empty());
    for i in 0..n
        invariant
            n == lines@.len(),
            unrolled(lines@) == all,
            all == data_lines(tsv@),
            places_in(all.take(i as int)) == Ok::<Seq<PlaceName>, Seq<char>>(
                plain_names(list@),
            ),
    {
        let line = &lines[i];
        proof {
            assert(line@ == all[i as int]);
            assert(all.take(i + 1).drop_last() =~= all.take(i as int));
            assert(all.take(i + 1).last() == line@);
        }
        if line.len() > 0 {
            let cols = split(line, '\t');
            assert(unrolled(cols@) == pieces(line@, '\t'));
            if cols.len() != 4 {
                proof {
                    lemma_places_in(all, i + 1);
                }
                return Err(text_of(line));
            }
            let place = Named { pref: text_of(&cols[0]), addr: text_of(&cols[1]) };
            let ghost before = plain_names(list@);
            let ghost p = place.place();
            list.push(place);
            proof {
                assert(unrolled(cols@)[0] == cols@[0]@);
                assert(unrolled(cols@)[1] == cols@[1]@);
                assert(plain_names(list@) =~= before.push(p));
            }
        }
    }
    assert(all.take(n as int) =~= all);
    Ok(list)
}

proof fn lemma_places_in(lines: Seq<Seq<char>>, n: int)
    requires
        0 <= n <= lines.len(),
        places_in(lines.take(n)) is Err,
    ensures
        places_in(lines) == places_in(lines.take(n)),
    decreases lines.len() - n,
{
    if n < lines.len() {
        assert(lines.take(n + 1).drop_last() =~= lines.take(n));
        lemma_places_in(lines, n + 1);
    } else {
        assert(lines.take(n) =~= lines);
    }
}

/// How many names are those of stations.
pub open spec fn matched(names: Seq<(PlaceName, nat)>, stations: Seq<PlaceName>) -> nat
    decreases names.len(),
{
    if names.len() == 0 {
        0
    } else {
        let before = matched(names.drop_last(), stations);
        let place = names.last().0;
        if place.1.len() > 0 && stations.contains(place) {
            before + 1
        } else {
            before
        }
    }
}

/// The order of places: by the prefecture, then by the name.
pub open spec fn place_before(a: PlaceName, b: PlaceName) -> bool {
    precedes(a.0, b.0) || (a.0 == b.0 && precedes(a.1, b.1))
}

/// A list of names with one more in its place.
pub open spec fn slipped(list: Seq<(PlaceName, nat)>, e: (PlaceName, nat)) -> Seq<(PlaceName, nat)>
    decreases list.len(),
{
    if list.len() > 0 && place_before(e.0, list.last().0) {
        slipped(list.drop_last(), e).push(list.last())
    } else {
        list.push(e)
    }
}

/// The names that are no stations, in order.
pub open spec fn missing(names: Seq<(PlaceName, nat)>, stations: Seq<PlaceName>) -> Seq<
    (PlaceName, nat),
>
    decreases names.len(),
{
    if names.len() == 0 {
        names
    } else {
        let before = missing(names.drop_last(), stations);
        if stations.contains(names.last().0) {
            before
        } else {
            slipped(before, names.last())
        }
    }
}

/// The line about the reports of one kind.
pub open spec fn summary_line(
    kind: Seq<char>,
    t: Tally,
    stations: Seq<PlaceName>,
) -> Seq<char> {
    (if kind.len() == 0 {
        "(不明)"@
    } else {
        kind
    }) + ": 報数="@ + decimal_text(t.reports) + " 地点出現数="@ + decimal_text(t.points)
        + " 固有地点="@ + decimal_text(t.names.len()) + " isArea="@ + decimal_text(t.area_count)
        + " 区域固有名="@ + decimal_text(t.area_names.len()) + " 観測点一致="@ + decimal_text(
        matched(t.names, stations),
    ) + " 観測点未一致="@ + decimal_text(missing(t.names, stations).len())
}

/// The line about a name that is no station.
pub open spec fn missing_line(e: (PlaceName, nat)) -> Seq<char> {
    "  未一致 "@ + (e.0).0 + "\t"@ + (e.0).1 + "\t"@ + decimal_text(e.1) + "件"@
}

/// The lines about the reports of one kind.
pub open spec fn section(kind: Seq<char>, t: Tally, stations: Seq<PlaceName>) -> Seq<Seq<char>> {
    let lost = missing(t.names, stations);
    seq![summary_line(kind, t, stations)] + Seq::new(
        lost.len(),
        |i: int| missing_line(lost[i]),
    )
}

/// The lines about all reports.
pub open spec fn sections(list: Seq<(Seq<char>, Tally)>, stations: Seq<PlaceName>) -> Seq<
    Seq<char>,
>
    decreases list.len(),
{
    if list.len() == 0 {
        Seq::empty()
    } else {
        sections(list.drop_last(), stations) + section(list.last().0, list.last().1, stations)
    }
}

fn is_station(stations: &[Named], place: &Named) -> (r: bool)
    ensures
        r == plain_names(stations@).contains(place.place()),
{
    for i in 0..stations.len()
        invariant
            forall|j: int| 0 <= j < i ==> #[trigger] plain_names(stations@)[j] != place.place(),
    {
        assert(plain_names(stations@)[i as int] == stations@[i as int].place());
        if same_place(&stations[i], place) {
            return true;
        }
    }
    false
}

fn count_matched(names: &Vec<(Named, u128)>, stations: &[Named]) -> (r: u64)
    ensures
        r == matched(counted_names(names@), plain_names(stations@)),
{
    let ghost all = counted_names(names@);
    let mut n: u64 = 0;
    for i in 0..names.len()
        invariant
            all == counted_names(names@),
            n <= i,
            n == matched(all.take(i as int), plain_names(stations@)),
    {
        assert(all.take(i + 1).drop_last() =~= all.take(i as int));
        assert(all.take(i + 1).last().0 == names@[i as int].0.place());
        if !names[i].0.addr.as_str().is_empty() && is_station(stations, &names[i].0) {
            n = n + 1;
        }
    }
    assert(all.take(all.len() as int) =~= all);
    n
}

fn goes_first(a: &Named, b: &Named) -> (r: bool)
    ensures
        r == place_before(a.place(), b.place()),
{
    comes_before(a.pref.as_str(), b.pref.as_str()) || (same(a.pref.as_str(), b.pref.as_str())
        && comes_before(a.addr.as_str(), b.addr.as_str()))
}

/// The names at the given positions.
spec fn chosen(names: Seq<(PlaceName, nat)>, at: Seq<usize>) -> Seq<(PlaceName, nat)> {
    Seq::new(at.len(), |i: int| names[at[i] as int])
}

/// The positions of the names that are no stations, in the order of the names.
fn find_missing(names: &Vec<(Named, u128)>, stations: &[Named]) -> (r: Vec<usize>)
    ensures
        forall|i: int| 0 <= i < r@.len() ==> (#[trigger] r@[i]) < names@.len(),
        chosen(counted_names(names@), r@) == missing(
            counted_names(names@),
            plain_names(stations@),
        ),
{
    let ghost all = counted_names(names@);
    let mut out: Vec<usize> = Vec::new();
    assert(chosen(all, out@) =~= Seq::<(PlaceName, nat)>::empty());
    for i in 0..names.len()
        invariant
            all == counted_names(names@),
            forall|k: int| 0 <= k < out@.len() ==> (#[trigger] out@[k]) < names@.len(),
            chosen(all, out@) == missing(all.take(i as int), plain_names(stations@)),
    {
        proof {
            assert(all.take(i + 1).drop_last() =~= all.take(i as int));
            assert(all.take(i + 1).last() == all[i as int]);
            assert(all[i as int].0 == names@[i as int].0.place());
        }
        if !is_station(stations, &names[i].0) {
            let ghost list = chosen(all, out@);
            let ghost held = out@;
            let ghost e = all[i as int];
            let mut k: usize = out.len();
            assert(list.take(k as int) =~= list);
            assert(slipped(list, e) + list.skip(k as int) =~= slipped(list, e));
            while k > 0 && goes_first(&names[i].0, &names[out[k - 1]].0)
                invariant
                    k <= out@.len(),
                    i < names@.len(),
                    out@ == held,
                    all == counted_names(names@),
                    list == chosen(all, out@),
                    e == all[i as int],
                    forall|j: int| 0 <= j < out@.len() ==> (#[trigger] out@[j]) < names@.len(),
                    slipped(list, e) == slipped(list.take(k as int), e) + list.skip(k as int),
                decreases k,
            {
                proof {
                    assert(list.take(k as int).drop_last() =~= list.take(k - 1));
                    assert(list.take(k as int).last() == list[k - 1]);
                    assert(list[k - 1] == all[out@[k - 1] as int]);
                    assert(slipped(list.take(k - 1), e).push(list[k - 1]) + list.skip(k as int)
                        =~= slipped(list.take(k - 1), e) + list.skip(k - 1));
                }
                k = k - 1;
            }
            proof {
                if k > 0 {
                    assert(list.take(k as int).last() == list[k - 1]);
                    assert(list[k - 1] == all[out@[k - 1] as int]);
                }
                assert(slipped(list.take(k as int), e) == list.take(k as int).push(e));
            }
            out.insert(k, i);
            assert(chosen(all, out@) =~= list.take(k as int).push(e) + list.skip(k as int));
            assert forall|j: int| 0 <= j < out@.len() implies (#[trigger] out@[j])
                < names@.len() by {
                if j < k {
                    assert(out@[j] == held[j]);
                } else if j > k {
                    assert(out@[j] == held[j - 1]);
                }
            }
        }
    }
    assert(all.take(all.len() as int) =~= all);
    out
}

/// Writes what was counted, with the names that are no stations.
pub fn report_lines(summary: &[(String, Summary)], stations: &[Named]) -> (r: Vec<String>)
    ensures
        texts(r@) == sections(tallies(summary@), plain_names(stations@)),
{
    let ghost all = tallies(summary@);
    let ghost known = plain_names(stations@);
    let mut out: Vec<String> = Vec::new();
    assert(texts(out@) =~= Seq::<Seq<char>>::empty());
    for i in 0..summary.len()
        invariant
            all == tallies(summary@),
            known == plain_names(stations@),
            texts(out@) == sections(all.take(i as int), known),
    {
        let (kind, values) = &summary[i];
        let ghost t = values.tally();
        proof {
            assert(all.take(i + 1).drop_last() =~= all.take(i as int));
            assert(all.take(i + 1).last() == (kind@, t));
        }
        let ghost before = texts(out@);
        let lost = find_missing(&values.names, stations);
        let ghost names = missing(t.names, known);
        let shown = if kind.as_str().is_empty() {
            "(不明)"
        } else {
            kind.as_str()
        };
        let line = shown.to_owned().concat(": 報数=").concat(
            decimal(values.reports).as_str(),
        ).concat(" 地点出現数=").concat(decimal_wide(values.points).as_str()).concat(
            " 固有地点=",
        ).concat(decimal(values.names.len() as u64).as_str()).concat(" isArea=").concat(
            decimal_wide(values.area_count).as_str(),
        ).concat(" 区域固有名=").concat(decimal(values.area_names.len() as u64).as_str()).concat(
            " 観測点一致=",
        ).concat(decimal(count_matched(&values.names, stations)).as_str()).concat(
            " 観測点未一致=",
        ).concat(decimal(lost.len() as u64).as_str());
        let ghost first = line@;
        assert(chosen(t.names, lost@).len() == lost@.len());
        assert(first == summary_line(kind@, t, known));
        out.push(line);
        assert(texts(out@) =~= before.push(first));
        let ghost rest = Seq::new(names.len(), |j: int| missing_line(names[j]));
        assert(texts(out@) =~= before + (seq![first] + rest.take(0)));
        for k in 0..lost.len()
            invariant
                t == values.tally(),
                names == missing(t.names, known),
                names == chosen(t.names, lost@),
                rest == Seq::new(names.len(), |j: int| missing_line(names[j])),
                forall|j: int|
                    0 <= j < lost@.len() ==> (#[trigger] lost@[j]) < values.names@.len(),
                texts(out@) == before + (seq![first] + rest.take(k as int)),
        {
            let (place, count) = &values.names[lost[k]];
            assert(names[k as int] == t.names[lost@[k as int] as int]);
            let text = "  未一致 ".to_owned().concat(place.pref.as_str()).concat("\t").concat(
                place.addr.as_str(),
            ).concat("\t").concat(decimal_wide(*count).as_str()).concat("件");
            let ghost so_far = texts(out@);
            let ghost new = text@;
            out.push(text);
            assert(new == rest[k as int]);
            assert(texts(out@) =~= so_far.push(new));
            assert(texts(out@) =~= before + (seq![first] + rest.take(k + 1)));
        }
        assert(rest.take(rest.len() as int) =~= rest);
        assert(section(kind@, t, known) =~= seq![first] + rest);
    }
    assert(all.take(all.len() as int) =~= all);
    out
}

} // verus!
