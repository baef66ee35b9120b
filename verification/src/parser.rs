//! The shape in which an instance is handed to the library, and the reading
//! of an instance from the text of a file.
//!
//! The text is read by lines. The first line holds the number of planes and
//! a freeze time. Each plane follows with a line of six numbers: the time at
//! which it appears, its earliest, target and latest landing time, and its
//! penalty rates for landing early and late. Behind that line come its
//! separation times, on as many lines as it takes to have one for every
//! plane.
use crate::text::{
    contents, decimal_hundredths, lines, read_decimal, read_whole_number, split_lines, split_words,
    whole_number, words,
};
use vstd::prelude::*;

verus! {

/// One plane as the instance data give it.
#[derive(Debug)]
pub struct Plane {
    pub earliest_landing: u32,
    pub target_landing: u32,
    pub latest_landing: u32,
    /// The penalty per unit of time for landing before the target time, in
    /// hundredths of a cost unit.
    pub penalty_before: u32,
    /// The penalty per unit of time for landing after the target time, in
    /// hundredths of a cost unit.
    pub penalty_after: u32,
    /// For each plane of the instance, the time that has to pass after this
    /// plane has landed before that plane may land.
    pub separation_times: Vec<u32>,
}

/// An instance as the instance data give it.
#[derive(Debug)]
pub struct ProblemData {
    pub num_planes: usize,
    pub planes: Vec<Plane>,
}

/// What a `Plane` holds.
pub struct PlaneView {
    pub earliest_landing: u32,
    pub target_landing: u32,
    pub latest_landing: u32,
    pub penalty_before: u32,
    pub penalty_after: u32,
    pub separation_times: Seq<u32>,
}

/// What a `ProblemData` holds.
pub struct InstanceView {
    pub num_planes: usize,
    pub planes: Seq<PlaneView>,
}

impl View for Plane {
    type V = PlaneView;

    open spec fn view(&self) -> PlaneView {
        PlaneView {
            earliest_landing: self.earliest_landing,
            target_landing: self.target_landing,
            latest_landing: self.latest_landing,
            penalty_before: self.penalty_before,
            penalty_after: self.penalty_after,
            separation_times: self.separation_times@,
        }
    }
}

impl Clone for Plane {
    fn clone(&self) -> (copy: Self)
        ensures
            copy@ == self@,
    {
        Plane {
            earliest_landing: self.earliest_landing,
            target_landing: self.target_landing,
            latest_landing: self.latest_landing,
            penalty_before: self.penalty_before,
            penalty_after: self.penalty_after,
            separation_times: self.separation_times.clone(),
        }
    }
}

impl View for ProblemData {
    type V = InstanceView;

    open spec fn view(&self) -> InstanceView {
        InstanceView {
            num_planes: self.num_planes,
            planes: Seq::new(self.planes@.len(), |i: int| self.planes@[i]@),
        }
    }
}

/// Why a text is not an instance.
#[derive(Debug, Clone, Copy, PartialEq, Eq, Structural)]
pub enum ParseError {
    /// The text ends where a line is due.
    MissingLine,
    /// A line ends where a number is due.
    MissingField,
    /// A word does not write a number of the kind that is due, or writes one
    /// that is too large.
    InvalidNumber,
}

impl Plane {
    /// The landing window is not empty and holds the target time, and there
    /// is a separation time for each of `num_planes` planes.
    pub open spec fn fits(&self, num_planes: usize) -> bool {
        &&& self.earliest_landing <= self.target_landing <= self.latest_landing
        &&& self.separation_times@.len() == num_planes
    }
}

impl ProblemData {
    /// The data describe an instance: there is at least one plane, there are
    /// as many planes as announced and no more than a vector can hold, and
    /// each plane fits.
    pub open spec fn consistent(&self) -> bool {
        &&& 0 < self.num_planes <= isize::MAX
        &&& self.planes@.len() == self.num_planes
        &&& forall|i: int|
            0 <= i < self.planes@.len() ==> (#[trigger] self.planes@[i]).fits(self.num_planes)
    }

    /// Tells whether the data describe an instance.
    pub fn is_consistent(&self) -> (ok: bool)
        ensures
            ok == self.consistent(),
    {
        if self.num_planes == 0 || self.num_planes > isize::MAX as usize || self.planes.len()
            != self.num_planes {
            return false;
        }
        let mut i: usize = 0;
        while i < self.planes.len()
            invariant
                i <= self.planes@.len(),
                forall|j: int| 0 <= j < i ==> (#[trigger] self.planes@[j]).fits(self.num_planes),
            decreases self.planes.len() - i,
        {
            let plane = &self.planes[i];
            if !(plane.earliest_landing <= plane.target_landing && plane.target_landing
                <= plane.latest_landing && plane.separation_times.len() == self.num_planes) {
                assert(!self.planes@[i as int].fits(self.num_planes));
                return false;
            }
            i += 1;
        }
        true
    }
}

/// The time that word `col` of `found` writes.
pub open spec fn time_in(found: Seq<Seq<u8>>, col: int) -> Result<u32, ParseError> {
    if col >= found.len() {
        Err(ParseError::MissingField)
    } else {
        match whole_number(found[col], u32::MAX as nat) {
            Some(time) => Ok(time as u32),
            None => Err(ParseError::InvalidNumber),
        }
    }
}

/// The penalty rate that word `col` of `found` writes, in hundredths.
pub open spec fn rate_in(found: Seq<Seq<u8>>, col: int) -> Result<u32, ParseError> {
    if col >= found.len() {
        Err(ParseError::MissingField)
    } else {
        match decimal_hundredths(found[col], u32::MAX as nat) {
            Some(rate) => Ok(rate as u32),
            None => Err(ParseError::InvalidNumber),
        }
    }
}

/// The number of planes that the first line, of the words `found`, gives. A
/// freeze time has to follow it.
pub open spec fn header(found: Seq<Seq<u8>>) -> Result<usize, ParseError> {
    if found.len() == 0 {
        Err(ParseError::MissingField)
    } else {
        match whole_number(found[0], usize::MAX as nat) {
            None => Err(ParseError::InvalidNumber),
            Some(count) => match time_in(found, 1) {
                Err(e) => Err(e),
                Ok(_) => Ok(count as usize),
            },
        }
    }
}

/// The plane that a line of the words `found` describes, without its
/// separation times. The words are read front to back, and the first one
/// that is missing or wrong decides the error.
pub open spec fn plane_head(found: Seq<Seq<u8>>) -> Result<PlaneView, ParseError> {
    match time_in(found, 0) {
        Err(e) => Err(e),
        Ok(_) => match time_in(found, 1) {
            Err(e) => Err(e),
            Ok(earliest_landing) => match time_in(found, 2) {
                Err(e) => Err(e),
                Ok(target_landing) => match time_in(found, 3) {
                    Err(e) => Err(e),
                    Ok(latest_landing) => match rate_in(found, 4) {
                        Err(e) => Err(e),
                        Ok(penalty_before) => match rate_in(found, 5) {
                            Err(e) => Err(e),
                            Ok(penalty_after) => Ok(
                                PlaneView {
                                    earliest_landing,
                                    target_landing,
                                    latest_landing,
                                    penalty_before,
                                    penalty_after,
                                    separation_times: Seq::empty(),
                                },
                            ),
                        },
                    },
                },
            },
        },
    }
}

/// The separation time that `word` writes; zero where it writes none.
pub open spec fn separation_of(word: Seq<u8>) -> u32 {
    match whole_number(word, u32::MAX as nat) {
        Some(time) => time as u32,
        None => 0u32,
    }
}

/// The separation times that the words `found` write.
pub open spec fn separations_of(found: Seq<Seq<u8>>) -> Seq<u32> {
    Seq::new(found.len(), |i: int| separation_of(found[i]))
}

/// The separation times of one plane: to `have`, whole lines are added from
/// line `row` on until there are `need` of them or more. Comes with the line
/// behind the last one that was added.
pub open spec fn separation_rows(rows: Seq<Seq<u8>>, row: int, need: nat, have: Seq<u32>) -> Result<
    (Seq<u32>, int),
    ParseError,
>
    decreases rows.len() - row,
{
    if have.len() >= need {
        Ok((have, row))
    } else if row < 0 || row >= rows.len() {
        Err(ParseError::MissingLine)
    } else {
        separation_rows(rows, row + 1, need, have + separations_of(words(rows[row])))
    }
}

/// `done` followed by the `left` planes that stand from line `row` on, each
/// with separation times for `need` planes.
pub open spec fn planes_from(
    rows: Seq<Seq<u8>>,
    row: int,
    need: nat,
    left: nat,
    done: Seq<PlaneView>,
) -> Result<Seq<PlaneView>, ParseError>
    decreases left,
{
    if left == 0 {
        Ok(done)
    } else if row < 0 || row >= rows.len() {
        Err(ParseError::MissingLine)
    } else {
        match plane_head(words(rows[row])) {
            Err(e) => Err(e),
            Ok(head) => match separation_rows(rows, row + 1, need, Seq::empty()) {
                Err(e) => Err(e),
                Ok((separation_times, next)) => planes_from(
                    rows,
                    next,
                    need,
                    (left - 1) as nat,
                    done.push(PlaneView { separation_times, ..head }),
                ),
            },
        }
    }
}

/// The instance of `num_planes` planes that stand from the second line of
/// `rows` on.
pub open spec fn instance_in(rows: Seq<Seq<u8>>, num_planes: usize) -> Result<
    InstanceView,
    ParseError,
> {
    match planes_from(rows, 1, num_planes as nat, num_planes as nat, Seq::empty()) {
        Err(e) => Err(e),
        Ok(planes) => Ok(InstanceView { num_planes, planes }),
    }
}

/// The instance that `text` describes, or the first reason why it describes
/// none.
pub open spec fn instance_of(text: Seq<u8>) -> Result<InstanceView, ParseError> {
    let rows = lines(text);
    if rows.len() == 0 {
        Err(ParseError::MissingLine)
    } else {
        match header(words(rows[0])) {
            Err(e) => Err(e),
            Ok(num_planes) => instance_in(rows, num_planes),
        }
    }
}

/// The separation times of a plane are read until there is one for every
/// plane.
pub proof fn lemma_separation_rows_suffice(
    rows: Seq<Seq<u8>>,
    row: int,
    need: nat,
    have: Seq<u32>,
)
    ensures
        separation_rows(rows, row, need, have) matches Ok((times, next)) ==> times.len() >= need,
    decreases rows.len() - row,
{
    if have.len() < need && 0 <= row < rows.len() {
        lemma_separation_rows_suffice(
            rows,
            row + 1,
            need,
            have + separations_of(words(rows[row])),
        );
    }
}

/// The planes that are read are as many as were asked for, and each has a
/// separation time for every plane.
pub proof fn lemma_planes_from_complete(
    rows: Seq<Seq<u8>>,
    row: int,
    need: nat,
    left: nat,
    done: Seq<PlaneView>,
)
    requires
        forall|i: int| 0 <= i < done.len() ==> (#[trigger] done[i]).separation_times.len() >= need,
    ensures
        planes_from(rows, row, need, left, done) matches Ok(planes) ==> {
            &&& planes.len() == done.len() + left
            &&& forall|i: int|
                0 <= i < planes.len() ==> (#[trigger] planes[i]).separation_times.len() >= need
        },
    decreases left,
{
    if left > 0 && 0 <= row < rows.len() {
        match plane_head(words(rows[row])) {
            Err(e) => {},
            Ok(head) => {
                lemma_separation_rows_suffice(rows, row + 1, need, Seq::empty());
                match separation_rows(rows, row + 1, need, Seq::empty()) {
                    Err(e) => {},
                    Ok((separation_times, next)) => {
                        let more = done.push(PlaneView { separation_times, ..head });
                        assert forall|i: int| 0 <= i < more.len() implies (#[trigger] more[i])
                            .separation_times.len() >= need by {
                            if i < done.len() {
                                assert(more[i] == done[i]);
                            }
                        }
                        lemma_planes_from_complete(rows, next, need, (left - 1) as nat, more);
                    },
                }
            },
        }
    }
}

/// An instance that is read has as many planes as its first line says, and
/// each of them has a separation time for every plane.
pub proof fn lemma_instance_complete(text: Seq<u8>)
    ensures
        instance_of(text) matches Ok(instance) ==> {
            &&& instance.planes.len() == instance.num_planes
            &&& forall|i: int|
                0 <= i < instance.planes.len() ==> (#[trigger] instance.planes[i])
                    .separation_times.len() >= instance.num_planes
        },
{
    let rows = lines(text);
    if rows.len() > 0 {
        match header(words(rows[0])) {
            Err(e) => {},
            Ok(num_planes) => {
                lemma_planes_from_complete(
                    rows,
                    1,
                    num_planes as nat,
                    num_planes as nat,
                    Seq::empty(),
                );
            },
        }
    }
}

/// Reads word `col` of `found` as a time.
fn read_time(found: &Vec<Vec<u8>>, col: usize) -> (time: Result<u32, ParseError>)
    ensures
        time == time_in(contents(found@), col as int),
{
    if col >= found.len() {
        return Err(ParseError::MissingField);
    }
    match read_whole_number(&found[col], u32::MAX as u64) {
        Some(time) => Ok(time as u32),
        None => Err(ParseError::InvalidNumber),
    }
}

/// Reads word `col` of `found` as a penalty rate.
fn read_rate(found: &Vec<Vec<u8>>, col: usize) -> (rate: Result<u32, ParseError>)
    ensures
        rate == rate_in(contents(found@), col as int),
{
    if col >= found.len() {
        return Err(ParseError::MissingField);
    }
    match read_decimal(&found[col], u32::MAX) {
        Some(rate) => Ok(rate),
        None => Err(ParseError::InvalidNumber),
    }
}

/// Reads the first line, of the words `found`.
fn read_header(found: &Vec<Vec<u8>>) -> (count: Result<usize, ParseError>)
    ensures
        count == header(contents(found@)),
{
    if found.len() == 0 {
        return Err(ParseError::MissingField);
    }
    let count: usize = match read_whole_number(&found[0], usize::MAX as u64) {
        Some(count) => count as usize,
        None => {
            return Err(ParseError::InvalidNumber);
        },
    };
    match read_time(found, 1) {
        Err(e) => Err(e),
        Ok(_) => Ok(count),
    }
}

/// Reads the line of a plane, of the words `found`.
fn read_plane_head(found: &Vec<Vec<u8>>) -> (plane: Result<Plane, ParseError>)
    ensures
        match plane {
            Ok(plane) => plane_head(contents(found@)) == Ok::<PlaneView, ParseError>(plane@),
            Err(e) => plane_head(contents(found@)) == Err::<PlaneView, ParseError>(e),
        },
{
    let _appearance_time: u32 = match read_time(found, 0) {
        Ok(time) => time,
        Err(e) => {
            return Err(e);
        },
    };
    let earliest_landing: u32 = match read_time(found, 1) {
        Ok(time) => time,
        Err(e) => {
            return Err(e);
        },
    };
    let target_landing: u32 = match read_time(found, 2) {
        Ok(time) => time,
        Err(e) => {
            return Err(e);
        },
    };
    let latest_landing: u32 = match read_time(found, 3) {
        Ok(time) => time,
        Err(e) => {
            return Err(e);
        },
    };
    let penalty_before: u32 = match read_rate(found, 4) {
        Ok(rate) => rate,
        Err(e) => {
            return Err(e);
        },
    };
    let penalty_after: u32 = match read_rate(found, 5) {
        Ok(rate) => rate,
        Err(e) => {
            return Err(e);
        },
    };
    let plane = Plane {
        earliest_landing,
        target_landing,
        latest_landing,
        penalty_before,
        penalty_after,
        separation_times: Vec::new(),
    };
    assert(plane@.separation_times =~= Seq::empty());
    Ok(plane)
}

/// Adds the separation times that `line` writes to `have`.
fn read_separations(line: &Vec<u8>, have: &mut Vec<u32>)
    ensures
        final(have)@ == old(have)@ + separations_of(words(line@)),
{
    let found = split_words(line);
    let ghost before = have@;
    let ghost all = separations_of(contents(found@));
    let mut k: usize = 0;
    while k < found.len()
        invariant
            k <= found@.len(),
            all == separations_of(contents(found@)),
            have@ == before + all.take(k as int),
        decreases found.len() - k,
    {
        let time: u32 = match read_whole_number(&found[k], u32::MAX as u64) {
            Some(time) => time as u32,
            None => 0,
        };
        have.push(time);
        assert(have@ =~= before + all.take(k + 1)) by {
            assert(all[k as int] == time);
            assert(all.take(k + 1) =~= all.take(k as int).push(time));
        }
        k += 1;
    }
    assert(all.take(k as int) =~= all);
}

/// Reads the separation times of one plane from line `row` on.
fn read_separation_rows(rows: &Vec<Vec<u8>>, row: usize, need: usize) -> (read: Result<
    (Vec<u32>, usize),
    ParseError,
>)
    requires
        row <= rows@.len(),
    ensures
        match read {
            Ok((times, next)) => separation_rows(
                contents(rows@),
                row as int,
                need as nat,
                Seq::empty(),
            ) == Ok::<(Seq<u32>, int), ParseError>((times@, next as int)) && row <= next
                <= rows@.len(),
            Err(e) => separation_rows(contents(rows@), row as int, need as nat, Seq::empty())
                == Err::<(Seq<u32>, int), ParseError>(e),
        },
{
    let mut have: Vec<u32> = Vec::new();
    let mut at: usize = row;
    while have.len() < need
        invariant
            row <= at <= rows@.len(),
            separation_rows(contents(rows@), row as int, need as nat, Seq::empty())
                == separation_rows(contents(rows@), at as int, need as nat, have@),
        decreases rows@.len() - at,
    {
        if at >= rows.len() {
            return Err(ParseError::MissingLine);
        }
        read_separations(&rows[at], &mut have);
        at += 1;
    }
    Ok((have, at))
}

/// Reads an instance from the text of a file. Where the text describes
/// none, the result says what is missing or wrong at the first place where
/// something is.
pub fn parse_problem_data(text: &[u8]) -> (parsed: Result<ProblemData, ParseError>)
    ensures
        match parsed {
            Ok(data) => instance_of(text@) == Ok::<InstanceView, ParseError>(data@),
            Err(e) => instance_of(text@) == Err::<InstanceView, ParseError>(e),
        },
        parsed matches Ok(data) ==> {
            &&& data.planes@.len() == data.num_planes
            &&& forall|i: int|
                0 <= i < data.planes@.len() ==> (#[trigger] data.planes@[i]).separation_times@.len()
                    >= data.num_planes
        },
{
    proof {
        lemma_instance_complete(text@);
    }
    let rows = split_lines(text);
    if rows.len() == 0 {
        return Err(ParseError::MissingLine);
    }
    let first = split_words(&rows[0]);
    let num_planes: usize = match read_header(&first) {
        Ok(count) => count,
        Err(e) => {
            return Err(e);
        },
    };
    let mut planes: Vec<Plane> = Vec::new();
    let mut row: usize = 1;
    let mut left: usize = num_planes;
    assert(Seq::new(planes@.len(), |i: int| planes@[i]@) =~= Seq::<PlaneView>::empty());
    while left > 0
        invariant
            row <= rows@.len(),
            left <= num_planes,
            planes@.len() == num_planes - left,
            instance_of(text@) == instance_in(contents(rows@), num_planes),
            planes_from(
                contents(rows@),
                1,
                num_planes as nat,
                num_planes as nat,
                Seq::empty(),
            ) == planes_from(
                contents(rows@),
                row as int,
                num_planes as nat,
                left as nat,
                Seq::new(planes@.len(), |i: int| planes@[i]@),
            ),
        decreases left,
    {
        if row >= rows.len() {
            return Err(ParseError::MissingLine);
        }
        let found = split_words(&rows[row]);
        let mut plane: Plane = match read_plane_head(&found) {
            Ok(plane) => plane,
            Err(e) => {
                return Err(e);
            },
        };
        let ghost head = plane@;
        let (times, next) = match read_separation_rows(&rows, row + 1, num_planes) {
            Ok(read) => read,
            Err(e) => {
                return Err(e);
            },
        };
        plane.separation_times = times;
        let ghost done = Seq::new(planes@.len(), |i: int| planes@[i]@);
        assert(plane@ == (PlaneView { separation_times: times@, ..head }));
        planes.push(plane);
        assert(Seq::new(planes@.len(), |i: int| planes@[i]@) =~= done.push(plane@));
        row = next;
        left -= 1;
    }
    let data = ProblemData { num_planes, planes };
    assert(data@.planes =~= Seq::new(planes@.len(), |i: int| planes@[i]@));
    assert forall|i: int| 0 <= i < data.planes@.len() implies (#[trigger] data.planes@[i])
        .separation_times@.len() >= data.num_planes by {
        assert(data@.planes[i] == data.planes@[i]@);
    }
    Ok(data)
}

} // verus!
