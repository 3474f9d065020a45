//! The status of a station and how it is put together from a page's parts.

use vstd::prelude::*;

use crate::grade::{grade_name, grade_of, Grade};
use crate::series::{decode_series, reading_view, readings_view, series_of, series_view};
use crate::text::{chars_of, paren_code, string_of, unwrap_parenthesized};

verus! {

/// One pollutant's reading: its short code, its unit (empty for an index
/// without a physical unit), its grade, and its hourly series, oldest first.
///
/// Each reading is the number literal that the page printed, or none where the
/// page gave no number for that hour.
#[derive(Clone, Debug)]
pub struct Pollutant {
    pub name: String,
    pub unit: String,
    pub data: Vec<Option<String>>,
    pub grade: Grade,
}

/// A pollutant as plain values.
pub struct PollutantView {
    pub name: Seq<char>,
    pub unit: Seq<char>,
    pub data: Seq<Option<Seq<char>>>,
    pub grade: Grade,
}

impl View for Pollutant {
    type V = PollutantView;

    open spec fn view(&self) -> PollutantView {
        PollutantView {
            name: self.name@,
            unit: self.unit@,
            data: readings_view(self.data@),
            grade: self.grade,
        }
    }
}

/// What one station reported at one time: its address, the time as the page
/// writes it, and the pollutants in the order the page presents them.
#[derive(Clone, Debug)]
pub struct AirStatus {
    pub station_address: String,
    pub time: String,
    pub pollutants: Vec<Pollutant>,
}

/// A status as plain values.
pub struct AirStatusView {
    pub station_address: Seq<char>,
    pub time: Seq<char>,
    pub pollutants: Seq<PollutantView>,
}

/// The views of several pollutants.
pub open spec fn pollutants_view(v: Seq<Pollutant>) -> Seq<PollutantView> {
    v.map_values(|p: Pollutant| p@)
}

impl View for AirStatus {
    type V = AirStatusView;

    open spec fn view(&self) -> AirStatusView {
        AirStatusView {
            station_address: self.station_address@,
            time: self.time@,
            pollutants: pollutants_view(self.pollutants@),
        }
    }
}

/// Why no status could be read from a page.
#[derive(Clone, Copy, Debug, PartialEq, Eq, Structural)]
pub enum ExtractError {
    /// The page holds no script, so no series exists for any pollutant.
    MissingScript,
    /// One of the page's structural queries could not be compiled.
    InvalidSelector,
}

/// The text of one pollutant card, each field trimmed and empty where the
/// card lacks it.
#[derive(Clone, Debug)]
pub struct CardFields {
    /// The display label, such as `"미세먼지(PM10)"`.
    pub label: String,
    /// The status word, such as `"보통"`.
    pub grade: String,
    pub unit: String,
}

/// A card's text as plain values.
pub struct CardText {
    pub label: Seq<char>,
    pub grade: Seq<char>,
    pub unit: Seq<char>,
}

impl View for CardFields {
    type V = CardText;

    open spec fn view(&self) -> CardText {
        CardText { label: self.label@, grade: self.grade@, unit: self.unit@ }
    }
}

/// The parts of a page that a status is made from: the station's address,
/// the observation time, the pollutant cards in page order, and the text of
/// the script that seeds the charts, if the page has one.
#[derive(Clone, Debug)]
pub struct PageFields {
    pub station: String,
    pub time: String,
    pub cards: Vec<CardFields>,
    pub script: Option<String>,
}

/// A page's parts as plain values.
pub struct PageText {
    pub station: Seq<char>,
    pub time: Seq<char>,
    pub cards: Seq<CardText>,
    pub script: Option<Seq<char>>,
}

impl View for PageFields {
    type V = PageText;

    open spec fn view(&self) -> PageText {
        PageText {
            station: self.station@,
            time: self.time@,
            cards: self.cards@.map_values(|c: CardFields| c@),
            script: match self.script {
                Some(s) => Some(s@),
                None => None,
            },
        }
    }
}

/// What a card says of its pollutant.
pub struct CardMeta {
    pub name: Seq<char>,
    pub unit: Seq<char>,
    pub grade: Grade,
}

/// A card's pollutant: the code in its label's parentheses, its unit and its
/// grade; none for a card whose label holds no code.
pub open spec fn card_meta(c: CardText) -> Option<CardMeta> {
    match paren_code(c.label) {
        Some(code) => Some(CardMeta { name: code, unit: c.unit, grade: grade_of(c.grade) }),
        None => None,
    }
}

/// The pollutants of the cards that carry a code, in page order.
pub open spec fn card_metas(cards: Seq<CardText>) -> Seq<CardMeta>
    decreases cards.len(),
{
    if cards.len() == 0 {
        Seq::empty()
    } else {
        let rest = card_metas(cards.drop_last());
        match card_meta(cards.last()) {
            Some(m) => rest.push(m),
            None => rest,
        }
    }
}

/// The smaller of two lengths.
pub open spec fn min_len(a: int, b: int) -> int {
    if a <= b {
        a
    } else {
        b
    }
}

/// The k-th pollutant card paired with the k-th series, as far as both go.
pub open spec fn paired(metas: Seq<CardMeta>, series: Seq<Seq<Option<Seq<char>>>>) -> Seq<
    PollutantView,
> {
    Seq::new(
        min_len(metas.len() as int, series.len() as int) as nat,
        |k: int|
            PollutantView {
                name: metas[k].name,
                unit: metas[k].unit,
                data: series[k],
                grade: metas[k].grade,
            },
    )
}

/// The status that a page's parts make; a page without a script makes none.
pub open spec fn status_of(page: PageText) -> Result<AirStatusView, ExtractError> {
    match page.script {
        Some(script) => Ok(
            AirStatusView {
                station_address: page.station,
                time: page.time,
                pollutants: paired(card_metas(page.cards), series_of(script)),
            },
        ),
        None => Err(ExtractError::MissingScript),
    }
}

/// The view of an outcome.
pub open spec fn status_result_view(r: Result<AirStatus, ExtractError>) -> Result<
    AirStatusView,
    ExtractError,
> {
    match r {
        Ok(s) => Ok(s@),
        Err(e) => Err(e),
    }
}

/// Puts a status together from a page's parts. The cards whose label carries
/// a code in parentheses are paired in page order with the script's series in
/// call order; a card without a code is dropped, and so is a card or a series
/// left without a partner. A page without a script is an error.
pub fn assemble(fields: &PageFields) -> (r: Result<AirStatus, ExtractError>)
    ensures
        status_result_view(r) == status_of(fields@),
{
    let script = match &fields.script {
        Some(s) => s,
        None => {
            return Err(ExtractError::MissingScript);
        },
    };
    let mut series = decode_series(script.as_str());
    let ghost all_series = series_view(series@);
    let ghost cards = fields@.cards;
    let mut pollutants: Vec<Pollutant> = Vec::new();
    let mut k: usize = 0;
    while k < fields.cards.len()
        invariant
            cards == fields@.cards,
            k <= cards.len(),
            all_series == series_of(script@),
            ({
                let m = card_metas(cards.subrange(0, k as int)).len();
                &&& series_view(series@) == all_series.subrange(
                    min_len(m as int, all_series.len() as int),
                    all_series.len() as int,
                )
                &&& pollutants_view(pollutants@) == paired(
                    card_metas(cards.subrange(0, k as int)),
                    all_series,
                )
            }),
        decreases cards.len() - k,
    {
        let card = &fields.cards[k];
        let ghost before = card_metas(cards.subrange(0, k as int));
        assert(cards.subrange(0, k + 1).drop_last() =~= cards.subrange(0, k as int));
        assert(cards.subrange(0, k + 1).last() == card@);
        match unwrap_parenthesized(card.label.as_str()) {
            Some(name) => {
                if series.len() > 0 {
                    let ghost old_series = series@;
                    let data = series.remove(0);
                    let ghost pv = pollutants_view(pollutants@);
                    let p = Pollutant {
                        name,
                        unit: card.unit.clone(),
                        data,
                        grade: Grade::from_str(card.grade.as_str()),
                    };
                    pollutants.push(p);
                    proof {
                        let m = before.len() as int;
                        assert(series_view(old_series).len() > 0);
                        assert(m < all_series.len());
                        assert(series_view(old_series)[0] == all_series[m]);
                        assert(p@.data == all_series[m]);
                        assert(min_len(m, all_series.len() as int) == m);
                        assert(series@ =~= old_series.subrange(1, old_series.len() as int));
                        assert forall|i: int| 0 <= i < series@.len() implies series_view(
                            series@,
                        )[i] == all_series[m + 1 + i] by {
                            assert(series@[i] == old_series[i + 1]);
                            assert(series_view(old_series)[i + 1] == all_series[m + 1 + i]);
                        }
                        assert(pollutants_view(pollutants@) =~= pv.push(p@));
                        assert(series_view(series@) =~= all_series.subrange(
                            m + 1,
                            all_series.len() as int,
                        ));
                        let meta = CardMeta { name: p@.name, unit: p@.unit, grade: p@.grade };
                        assert(card_meta(card@) == Some(meta));
                        assert(card_metas(cards.subrange(0, k + 1)) == before.push(meta));
                        assert(paired(before.push(meta), all_series) =~= pv.push(p@));
                    }
                } else {
                    proof {
                        assert(series_view(series@).len() == 0);
                        assert(before.len() >= all_series.len());
                        let meta = CardMeta {
                            name: name@,
                            unit: card.unit@,
                            grade: grade_of(card.grade@),
                        };
                        assert(card_meta(card@) == Some(meta));
                        assert(card_metas(cards.subrange(0, k + 1)) == before.push(meta));
                        assert(paired(card_metas(cards.subrange(0, k + 1)), all_series) =~= paired(
                            before,
                            all_series,
                        ));
                    }
                }
            },
            None => {},
        }
        k = k + 1;
    }
    assert(cards.subrange(0, k as int) =~= cards);
    Ok(
        AirStatus {
            station_address: fields.station.clone(),
            time: fields.time.clone(),
            pollutants,
        },
    )
}

proof fn lemma_metas_skip_uncoded(cards: Seq<CardText>, i: int)
    requires
        0 <= i < cards.len(),
        card_meta(cards[i]) is None,
    ensures
        card_metas(cards.remove(i)) == card_metas(cards),
    decreases cards.len(),
{
    if i == cards.len() - 1 {
        assert(cards.remove(i) =~= cards.drop_last());
    } else {
        assert(cards.remove(i).drop_last() =~= cards.drop_last().remove(i));
        assert(cards.remove(i).last() == cards.last());
        lemma_metas_skip_uncoded(cards.drop_last(), i);
    }
}

/// A card whose label holds no code in parentheses never becomes a pollutant,
/// whatever its grade and unit say: the page's status is the same with the
/// card as without it.
pub proof fn lemma_uncoded_card_dropped(page: PageText, i: int)
    requires
        0 <= i < page.cards.len(),
        paren_code(page.cards[i].label) is None,
    ensures
        status_of(page) == status_of(PageText { cards: page.cards.remove(i), ..page }),
{
    lemma_metas_skip_uncoded(page.cards, i);
}

/// Every pollutant of a status comes from a card that carries a code, and the
/// pollutants keep the cards' order.
pub proof fn lemma_pollutants_from_coded_cards(page: PageText, k: int)
    requires
        status_of(page) is Ok,
        0 <= k < status_of(page)->Ok_0.pollutants.len(),
    ensures
        status_of(page)->Ok_0.pollutants[k].name == card_metas(page.cards)[k].name,
        exists|j: int|
            0 <= j < page.cards.len() && card_meta(#[trigger] page.cards[j]) == Some(
                card_metas(page.cards)[k],
            ),
{
    lemma_metas_from_cards(page.cards, k);
}

proof fn lemma_metas_from_cards(cards: Seq<CardText>, k: int)
    requires
        0 <= k < card_metas(cards).len(),
    ensures
        exists|j: int| 0 <= j < cards.len() && card_meta(#[trigger] cards[j]) == Some(card_metas(cards)[k]),
    decreases cards.len(),
{
    let rest = card_metas(cards.drop_last());
    if k < rest.len() {
        lemma_metas_from_cards(cards.drop_last(), k);
        let j = choose|j: int|
            0 <= j < cards.drop_last().len() && card_meta(#[trigger] cards.drop_last()[j]) == Some(
                rest[k],
            );
        assert(cards.drop_last()[j] == cards[j]);
    } else {
        assert(card_meta(cards[cards.len() - 1]) == Some(card_metas(cards)[k]));
    }
}


/// `name` padded with spaces on the right to six characters.
pub open spec fn padded_name(name: Seq<char>) -> Seq<char> {
    if name.len() >= 6 {
        name
    } else {
        name + Seq::new((6 - name.len()) as nat, |i: int| ' ')
    }
}

/// How a reading is shown: its literal, or `--` where there is none.
pub open spec fn reading_text(r: Option<Seq<char>>) -> Seq<char> {
    match r {
        Some(t) => t,
        None => seq!['-', '-'],
    }
}

/// The readings shown one after the other, ` → ` between each two.
pub open spec fn readings_text(data: Seq<Option<Seq<char>>>) -> Seq<char>
    decreases data.len(),
{
    if data.len() == 0 {
        Seq::empty()
    } else if data.len() == 1 {
        reading_text(data[0])
    } else {
        readings_text(data.drop_last()) + seq![' ', '→', ' '] + reading_text(data.last())
    }
}

/// One line for a pollutant: `NAME  (unit): r1 → r2 → ...  Grade`.
pub open spec fn pollutant_line(p: PollutantView) -> Seq<char> {
    padded_name(p.name) + seq!['('] + p.unit + seq![')', ':', ' '] + readings_text(p.data) + seq![
        ' ',
        ' ',
    ] + grade_name(p.grade)
}

/// Appends the characters of `s`.
fn push_all(out: &mut Vec<char>, s: &str)
    ensures
        final(out)@ == old(out)@ + s@,
{
    let cs = chars_of(s);
    let ghost start = out@;
    let mut i: usize = 0;
    while i < cs.len()
        invariant
            i <= cs@.len(),
            out@ == start + cs@.subrange(0, i as int),
        decreases cs@.len() - i,
    {
        out.push(cs[i]);
        i = i + 1;
    }
    assert(cs@.subrange(0, i as int) =~= s@);
}

impl Pollutant {
    /// The pollutant on one line: its name padded to six characters, its unit
    /// in parentheses, its readings joined by arrows (`--` for a missing one)
    /// and its grade.
    pub fn render(&self) -> (r: String)
        ensures
            r@ == pollutant_line(self@),
    {
        let mut out: Vec<char> = Vec::new();
        push_all(&mut out, self.name.as_str());
        let mut n: usize = self.name.as_str().unicode_len();
        while n < 6
            invariant
                self.name@.len() <= n <= 6 || (n == self.name@.len() && n > 6),
                out@ == self.name@ + Seq::new((n - self.name@.len()) as nat, |i: int| ' '),
            decreases 6 - n,
        {
            out.push(' ');
            n = n + 1;
            assert(out@ =~= self.name@ + Seq::new((n - self.name@.len()) as nat, |i: int| ' '));
        }
        assert(out@ =~= padded_name(self.name@));
        out.push('(');
        push_all(&mut out, self.unit.as_str());
        out.push(')');
        out.push(':');
        out.push(' ');
        let ghost head = out@;
        let ghost data = readings_view(self.data@);
        let mut k: usize = 0;
        while k < self.data.len()
            invariant
                k <= self.data@.len(),
                data == readings_view(self.data@),
                out@ == head + readings_text(data.subrange(0, k as int)),
            decreases self.data@.len() - k,
        {
            let ghost before = out@;
            if k > 0 {
                out.push(' ');
                out.push('→');
                out.push(' ');
            }
            match &self.data[k] {
                Some(t) => push_all(&mut out, t.as_str()),
                None => {
                    out.push('-');
                    out.push('-');
                },
            }
            proof {
                let d = data.subrange(0, k + 1);
                assert(d.drop_last() =~= data.subrange(0, k as int));
                assert(d.last() == data[k as int]);
                if k == 0 {
                    assert(readings_text(data.subrange(0, 0)) =~= Seq::<char>::empty());
                }
                assert(out@ =~= head + readings_text(d));
            }
            k = k + 1;
        }
        assert(data.subrange(0, k as int) =~= data);
        out.push(' ');
        out.push(' ');
        let g = self.grade.as_str();
        push_all(&mut out, g);
        assert(out@ =~= pollutant_line(self@));
        string_of(out.as_slice())
    }
}

impl IntoIterator for AirStatus {
    type Item = Pollutant;

    type IntoIter = std::vec::IntoIter<Pollutant>;

    /// Iterates over the pollutants, in the order the page presents them.
    fn into_iter(self) -> (r: std::vec::IntoIter<Pollutant>)
        ensures
            r == vstd::std_specs::vec::spec_into_iter(self.pollutants),
    {
        self.pollutants.into_iter()
    }
}

/// Whether two series hold the same readings.
fn same_readings(a: &Vec<Option<String>>, b: &Vec<Option<String>>) -> (r: bool)
    ensures
        r == (readings_view(a@) == readings_view(b@)),
{
    if a.len() != b.len() {
        assert(readings_view(a@).len() != readings_view(b@).len());
        return false;
    }
    let mut k: usize = 0;
    while k < a.len()
        invariant
            a@.len() == b@.len(),
            k <= a@.len(),
            forall|m: int| 0 <= m < k ==> reading_view(a@[m]) == reading_view(b@[m]),
        decreases a@.len() - k,
    {
        let same = match &a[k] {
            Some(x) => match &b[k] {
                Some(y) => x.eq(y),
                None => false,
            },
            None => b[k].is_none(),
        };
        if !same {
            assert(readings_view(a@)[k as int] != readings_view(b@)[k as int]);
            return false;
        }
        k = k + 1;
    }
    assert(readings_view(a@) =~= readings_view(b@));
    true
}

impl PartialEq for Pollutant {
    fn eq(&self, other: &Pollutant) -> (r: bool) {
        self.name == other.name && self.unit == other.unit && self.grade == other.grade
            && same_readings(&self.data, &other.data)
    }
}

impl vstd::std_specs::cmp::PartialEqSpecImpl for Pollutant {
    open spec fn obeys_eq_spec() -> bool {
        true
    }

    open spec fn eq_spec(&self, other: &Pollutant) -> bool {
        self@ == other@
    }
}

impl PartialEq for AirStatus {
    fn eq(&self, other: &AirStatus) -> (r: bool) {
        if !(self.station_address == other.station_address && self.time == other.time
            && self.pollutants.len() == other.pollutants.len()) {
            proof {
                if self.pollutants.len() != other.pollutants.len() {
                    assert(self@.pollutants.len() != other@.pollutants.len());
                }
            }
            return false;
        }
        let mut k: usize = 0;
        while k < self.pollutants.len()
            invariant
                self.pollutants@.len() == other.pollutants@.len(),
                k <= self.pollutants@.len(),
                forall|m: int| 0 <= m < k ==> self.pollutants@[m]@ == other.pollutants@[m]@,
            decreases self.pollutants@.len() - k,
        {
            if !(self.pollutants[k] == other.pollutants[k]) {
                assert(self@.pollutants[k as int] != other@.pollutants[k as int]);
                return false;
            }
            k = k + 1;
        }
        assert(self@.pollutants =~= other@.pollutants);
        true
    }
}

impl vstd::std_specs::cmp::PartialEqSpecImpl for AirStatus {
    open spec fn obeys_eq_spec() -> bool {
        true
    }

    open spec fn eq_spec(&self, other: &AirStatus) -> bool {
        self@ == other@
    }
}

} // verus!
