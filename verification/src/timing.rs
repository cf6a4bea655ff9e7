//! Reading the timings of a job out of its log.
//!
//! A log reports parts (`[RUSTC-TIMING] <name> <seconds>`) and phases
//! (`[TIMING] <step> -- <seconds>`). The parts reported since the last
//! phase line belong to the next one.

use crate::decimal::{parse_nanos, parsed};
use crate::error::TimingError;
use crate::name_map::{ascending, assoc, lemma_assoc, lemma_insert_assoc, NameMap};
use crate::record::{Timing, TimingView};
use crate::text::{
    after, find, find_get_after, find_in, from_chars, last_index_of, lemma_find_from,
    lemma_last_index_of, lines, rfind_char, slice_views, split_lines, to_chars, trim, trimmed,
};
use vstd::prelude::*;

verus! {

/// What stands before the name of a part.
pub open spec fn part_marker() -> Seq<char> {
    "[RUSTC-TIMING] "@
}

/// What stands before the name of a phase.
pub open spec fn phase_marker() -> Seq<char> {
    "[TIMING] "@
}

/// What stands between the name of a phase and its seconds.
pub open spec fn phase_separator() -> Seq<char> {
    " -- "@
}

/// A name with its nanoseconds, or why they could not be read.
pub type Reading = Result<(Seq<char>, u64), TimingError>;

/// The part that a line reports, if it reports one: what follows the
/// marker is cut at its last space into the name and the seconds.
pub open spec fn part_of(line: Seq<char>) -> Option<Reading> {
    match after(line, part_marker()) {
        None => None,
        Some(rest) => Some(
            match last_index_of(rest, ' ') {
                None => Err(TimingError::Malformed),
                Some(i) => match parsed(rest.skip(i + 1)) {
                    Ok(v) => Ok((rest.take(i), v)),
                    Err(e) => Err(e),
                },
            },
        ),
    }
}

/// The phase that a line closes, if it closes one: what follows the
/// marker is cut at its first separator into the step and the seconds.
/// A line with the marker and no separator closes none.
pub open spec fn phase_of(line: Seq<char>) -> Option<Reading> {
    match after(line, phase_marker()) {
        None => None,
        Some(rest) => match find(rest, phase_separator()) {
            None => None,
            Some(pos) => Some(
                match parsed(rest.skip(pos + phase_separator().len())) {
                    Ok(v) => Ok((rest.take(pos), v)),
                    Err(e) => Err(e),
                },
            ),
        },
    }
}

/// What `m` holds under `k`, and zero where it holds nothing.
pub open spec fn amount(m: Map<Seq<char>, u64>, k: Seq<char>) -> int {
    if m.contains_key(k) {
        m[k] as int
    } else {
        0
    }
}

/// `m` with `v` added to what it holds under `name`.
pub open spec fn add_part(m: Map<Seq<char>, u64>, name: Seq<char>, v: u64) -> Result<
    Map<Seq<char>, u64>,
    TimingError,
> {
    if amount(m, name) + v > u64::MAX {
        Err(TimingError::OutOfRange)
    } else {
        Ok(m.insert(name, (amount(m, name) + v) as u64))
    }
}

/// The sums, name by name, of what `parts` and `pending` hold.
pub open spec fn sum_of(parts: Map<Seq<char>, u64>, pending: Map<Seq<char>, u64>) -> Map<
    Seq<char>,
    u64,
> {
    Map::new(
        |k: Seq<char>| parts.contains_key(k) || pending.contains_key(k),
        |k: Seq<char>| (amount(parts, k) + amount(pending, k)) as u64,
    )
}

/// Whether some sum of `sum_of` is more than a duration can hold.
pub open spec fn sum_overflows(parts: Map<Seq<char>, u64>, pending: Map<Seq<char>, u64>) -> bool {
    exists|k: Seq<char>| #[trigger] pending.contains_key(k) && amount(parts, k) + pending[k] > u64::MAX
}

/// The state of the reading: the parts not yet given to a phase, and
/// the phases closed so far.
#[verifier::ext_equal]
pub struct Progress {
    pub pending: Map<Seq<char>, u64>,
    pub phases: Map<Seq<char>, TimingView>,
}

/// The phase that `phases` holds under `step`, or else an empty one.
pub open spec fn phase_at(phases: Map<Seq<char>, TimingView>, step: Seq<char>) -> TimingView {
    if phases.contains_key(step) {
        phases[step]
    } else {
        Timing::empty()
    }
}

/// Closing `step` with `v`: its duration grows by `v`, the pending
/// parts are added to its parts, and nothing is pending any more.
pub open spec fn close_phase(p: Progress, step: Seq<char>, v: u64) -> Result<
    Progress,
    TimingError,
> {
    let before = phase_at(p.phases, step);
    if before.dur + v > u64::MAX || sum_overflows(before.parts, p.pending) {
        Err(TimingError::OutOfRange)
    } else {
        Ok(
            Progress {
                pending: Map::empty(),
                phases: p.phases.insert(
                    step,
                    TimingView {
                        dur: (before.dur + v) as u64,
                        parts: sum_of(before.parts, p.pending),
                    },
                ),
            },
        )
    }
}

/// Reading the part of a line, if it reports one.
pub open spec fn read_part(p: Progress, line: Seq<char>) -> Result<Progress, TimingError> {
    match part_of(line) {
        None => Ok(p),
        Some(Err(e)) => Err(e),
        Some(Ok((name, v))) => match add_part(p.pending, name, v) {
            Ok(pending) => Ok(Progress { pending, phases: p.phases }),
            Err(e) => Err(e),
        },
    }
}

/// Reading the phase of a line, if it closes one.
pub open spec fn read_phase(p: Progress, line: Seq<char>) -> Result<Progress, TimingError> {
    match phase_of(line) {
        None => Ok(p),
        Some(Err(e)) => Err(e),
        Some(Ok((step, v))) => close_phase(p, step, v),
    }
}

/// Reading one line of the log: it is trimmed, then read as a part, then
/// as a phase.
pub open spec fn read_line(p: Progress, raw: Seq<char>) -> Result<Progress, TimingError> {
    let line = trimmed(raw);
    match read_part(p, line) {
        Ok(q) => read_phase(q, line),
        Err(e) => Err(e),
    }
}

/// Reading lines in order, up to the first that fails.
pub open spec fn read_lines(ls: Seq<Seq<char>>) -> Result<Progress, TimingError>
    decreases ls.len(),
{
    if ls.len() == 0 {
        Ok(Progress { pending: Map::empty(), phases: Map::empty() })
    } else {
        match read_lines(ls.drop_last()) {
            Ok(p) => read_line(p, ls.last()),
            Err(e) => Err(e),
        }
    }
}

/// The timings that a log reports, phase by phase. Parts that no phase
/// line follows are left out.
pub open spec fn timings_of(text: Seq<char>) -> Result<Map<Seq<char>, TimingView>, TimingError> {
    match read_lines(lines(text)) {
        Ok(p) => Ok(p.phases),
        Err(e) => Err(e),
    }
}

/// Once a line has failed, the lines after it change nothing.
pub proof fn lemma_failure_stays(ls: Seq<Seq<char>>, i: int)
    requires
        0 <= i <= ls.len(),
        read_lines(ls.take(i)) is Err,
    ensures
        read_lines(ls) == read_lines(ls.take(i)),
    decreases ls.len() - i,
{
    if i < ls.len() {
        assert(ls.take(i + 1).drop_last() =~= ls.take(i));
        lemma_failure_stays(ls, i + 1);
    } else {
        assert(ls.take(i) =~= ls);
    }
}

/// The view of a name read with its nanoseconds.
pub open spec fn reading_view(r: Option<Result<(String, u64), TimingError>>) -> Option<Reading> {
    match r {
        None => None,
        Some(Err(e)) => Some(Err(e)),
        Some(Ok((name, v))) => Some(Ok((name@, v))),
    }
}

/// The part that `line` reports, where `marker` is the marker of parts.
fn part_in(line: &[char], marker: &[char]) -> (r: Option<Result<(String, u64), TimingError>>)
    requires
        marker@ == part_marker(),
    ensures
        reading_view(r) == part_of(line@),
{
    match find_get_after(line, marker) {
        None => None,
        Some(rest) => match rfind_char(rest, ' ') {
            None => Some(Err(TimingError::Malformed)),
            Some(i) => {
                let n = rest.len();
                proof {
                    lemma_last_index_of(rest@, ' ');
                }
                let number = vstd::slice::slice_subrange(rest, i + 1, n);
                assert(number@ =~= rest@.skip(i + 1));
                match parse_nanos(number) {
                    Ok(v) => {
                        let name = vstd::slice::slice_subrange(rest, 0, i);
                        assert(name@ =~= rest@.take(i as int));
                        Some(Ok((from_chars(name), v)))
                    },
                    Err(e) => Some(Err(e)),
                }
            },
        },
    }
}

/// The phase that `line` closes, where `marker` is the marker of phases
/// and `separator` what stands before their seconds.
fn phase_in(line: &[char], marker: &[char], separator: &[char]) -> (r: Option<
    Result<(String, u64), TimingError>,
>)
    requires
        marker@ == phase_marker(),
        separator@ == phase_separator(),
    ensures
        reading_view(r) == phase_of(line@),
{
    match find_get_after(line, marker) {
        None => None,
        Some(rest) => match find_in(rest, separator) {
            None => None,
            Some(pos) => {
                let n = rest.len();
                proof {
                    lemma_find_from(rest@, separator@, 0);
                }
                let number = vstd::slice::slice_subrange(rest, pos + separator.len(), n);
                assert(number@ =~= rest@.skip(pos + separator@.len()));
                match parse_nanos(number) {
                    Ok(v) => {
                        let step = vstd::slice::slice_subrange(rest, 0, pos);
                        assert(step@ =~= rest@.take(pos as int));
                        Some(Ok((from_chars(step), v)))
                    },
                    Err(e) => Some(Err(e)),
                }
            },
        },
    }
}

/// Adds `v` to what `map` holds under `name`.
fn add_amount(map: &mut NameMap<u64>, name: String, v: u64) -> (r: Result<(), TimingError>)
    ensures
        match add_part(old(map)@, name@, v) {
            Ok(m) => r is Ok && final(map)@ == m,
            Err(e) => r == Err::<(), TimingError>(e) && final(map)@ == old(map)@,
        },
{
    let held: u64 = match map.get(name.as_str()) {
        Some(h) => *h,
        None => 0,
    };
    if held > u64::MAX - v {
        return Err(TimingError::OutOfRange);
    }
    map.insert(name, held + v);
    Ok(())
}

/// Adds what `pending` holds to `parts`, name by name.
fn add_all(parts: &mut NameMap<u64>, pending: &NameMap<u64>) -> (r: Result<(), TimingError>)
    ensures
        r is Ok <==> !sum_overflows(old(parts)@, pending@),
        r is Ok ==> final(parts)@ == sum_of(old(parts)@, pending@),
        r is Err ==> r == Err::<(), TimingError>(TimingError::OutOfRange),
{
    let n = pending.len();
    let ghost start = parts@;
    let ghost keys = pending.keys();
    let ghost vals = pending.vals();
    let mut j: usize = 0;
    proof {
        lemma_assoc(keys, vals);
        assert(keys.take(0) =~= Seq::<Seq<char>>::empty());
        assert(parts@ =~= sum_of(start, assoc(keys.take(0), vals.take(0))));
    }
    while j < n
        invariant
            j <= n,
            n == keys.len(),
            keys == pending.keys(),
            vals == pending.vals(),
            pending.wf(),
            start == old(parts)@,
            parts@ == sum_of(start, assoc(keys.take(j as int), vals.take(j as int))),
            forall|i: int| 0 <= i < j ==> amount(start, #[trigger] keys[i]) + vals[i] <= u64::MAX,
        decreases n - j,
    {
        let (name, v) = match pending.entry(j) {
            Some((k, v)) => (k.clone(), *v),
            None => (String::new(), 0),
        };
        let ghost seen = assoc(keys.take(j as int), vals.take(j as int));
        proof {
            assert(name@ == keys[j as int]);
            assert(v == vals[j as int]);
            lemma_prefix(keys, vals, j as int);
            lemma_assoc(keys, vals);
            assert(!seen.contains_key(name@));
            assert(amount(parts@, name@) == amount(start, name@));
            assert(pending@.contains_key(keys[j as int]) && pending@[keys[j as int]] == v);
        }
        match add_amount(parts, name, v) {
            Ok(()) => {},
            Err(e) => {
                return Err(TimingError::OutOfRange);
            },
        }
        proof {
            let next = assoc(keys.take(j + 1), vals.take(j + 1));
            assert(next == seen.insert(keys[j as int], v));
            assert(parts@ =~= sum_of(start, next));
        }
        j += 1;
    }
    proof {
        assert(keys.take(j as int) =~= keys);
        assert(vals.take(j as int) =~= vals);
        lemma_assoc(keys, vals);
        assert forall|k: Seq<char>| #[trigger] pending@.contains_key(k) implies amount(start, k)
            + pending@[k] <= u64::MAX by {
            let i = choose|i: int| 0 <= i < keys.len() && keys[i] == k;
            assert(pending@[keys[i]] == vals[i]);
        }
    }
    Ok(())
}

/// The first `j` entries of an ascending list are an ascending list
/// that does not hold the key at `j`, and taking that entry in as well
/// is putting it into their map.
proof fn lemma_prefix(keys: Seq<Seq<char>>, vals: Seq<u64>, j: int)
    requires
        ascending(keys),
        keys.len() == vals.len(),
        0 <= j < keys.len(),
    ensures
        ascending(keys.take(j)),
        !assoc(keys.take(j), vals.take(j)).contains_key(keys[j]),
        assoc(keys.take(j + 1), vals.take(j + 1)) == assoc(keys.take(j), vals.take(j)).insert(
            keys[j],
            vals[j],
        ),
{
    let k0 = keys.take(j);
    let v0 = vals.take(j);
    assert forall|x: int, y: int| 0 <= x < y < k0.len() implies crate::text::lex_lt(
        #[trigger] k0[x],
        #[trigger] k0[y],
    ) by {
        assert(k0[x] == keys[x] && k0[y] == keys[y]);
    }
    lemma_assoc(k0, v0);
    if assoc(k0, v0).contains_key(keys[j]) {
        let i = choose|i: int| 0 <= i < k0.len() && k0[i] == keys[j];
        assert(keys[i] == keys[j]);
        crate::name_map::lemma_ascending_distinct(keys, i, j);
    }
    assert forall|i: int| 0 <= i < j implies crate::text::lex_lt(#[trigger] k0[i], keys[j]) by {
        assert(k0[i] == keys[i]);
    }
    lemma_insert_assoc(k0, v0, j, keys[j], vals[j]);
    assert(k0.insert(j, keys[j]) =~= keys.take(j + 1));
    assert(v0.insert(j, vals[j]) =~= vals.take(j + 1));
}

/// Closes `step` with `v`, giving it the pending parts.
fn close(phases: &mut NameMap<Timing>, pending: &NameMap<u64>, step: String, v: u64) -> (r: Result<
    (),
    TimingError,
>)
    ensures
        match close_phase((Progress { pending: pending@, phases: old(phases)@ }), step@, v) {
            Ok(p) => r is Ok && final(phases)@ == p.phases,
            Err(e) => r == Err::<(), TimingError>(e),
        },
{
    let mut timing = match phases.take(step.as_str()) {
        Some(t) => t,
        None => Timing::new(),
    };
    assert(timing@ == phase_at(old(phases)@, step@));
    if timing.dur > u64::MAX - v {
        return Err(TimingError::OutOfRange);
    }
    timing.dur = timing.dur + v;
    match add_all(&mut timing.parts, pending) {
        Ok(()) => {},
        Err(_) => {
            return Err(TimingError::OutOfRange);
        },
    }
    let ghost closed = timing@;
    phases.insert(step, timing);
    assert(phases@ =~= old(phases)@.insert(step@, closed));
    Ok(())
}

/// The timings that the log `contents` reports, phase by phase.
///
/// It fails with `Malformed` at the first line on which what stands
/// for the seconds is no number, or a negative one, and with
/// `OutOfRange` at the first line that takes a number or a total past
/// what a duration holds.
pub fn extract_timings(contents: &str) -> (r: Result<NameMap<Timing>, TimingError>)
    ensures
        match r {
            Ok(m) => timings_of(contents@) == Ok::<Map<Seq<char>, TimingView>, TimingError>(m@),
            Err(e) => timings_of(contents@) == Err::<Map<Seq<char>, TimingView>, TimingError>(e),
        },
{
    let chars = to_chars(contents);
    let ls = split_lines(chars.as_slice());
    let part_mark = to_chars("[RUSTC-TIMING] ");
    let phase_mark = to_chars("[TIMING] ");
    let separator = to_chars(" -- ");
    let ghost all = lines(contents@);
    let mut phases: NameMap<Timing> = NameMap::new();
    let mut pending: NameMap<u64> = NameMap::new();
    let mut i: usize = 0;
    proof {
        assert(all.take(0) =~= Seq::<Seq<char>>::empty());
        assert(phases@ =~= Map::empty());
        assert(pending@ =~= Map::empty());
    }
    while i < ls.len()
        invariant
            i <= ls.len(),
            all == lines(contents@),
            slice_views(ls@) == all,
            part_mark@ == part_marker(),
            phase_mark@ == phase_marker(),
            separator@ == phase_separator(),
            read_lines(all.take(i as int)) == Ok::<Progress, TimingError>(
                (Progress { pending: pending@, phases: phases@ }),
            ),
        decreases ls.len() - i,
    {
        let line = trim(ls[i]);
        let ghost before = Progress { pending: pending@, phases: phases@ };
        proof {
            assert(all.take(i + 1).drop_last() =~= all.take(i as int));
            assert(all.take(i + 1).last() == ls@[i as int]@);
            assert(read_lines(all.take(i + 1)) == read_line(before, ls@[i as int]@));
        }
        match part_in(line, part_mark.as_slice()) {
            None => {},
            Some(Err(e)) => {
                proof {
                    lemma_failure_stays(all, i + 1);
                }
                return Err(e);
            },
            Some(Ok((name, v))) => match add_amount(&mut pending, name, v) {
                Ok(()) => {},
                Err(e) => {
                    proof {
                        lemma_failure_stays(all, i + 1);
                    }
                    return Err(e);
                },
            },
        }
        let ghost middle = Progress { pending: pending@, phases: phases@ };
        assert(read_part(before, line@) == Ok::<Progress, TimingError>(middle));
        match phase_in(line, phase_mark.as_slice(), separator.as_slice()) {
            None => {},
            Some(Err(e)) => {
                proof {
                    lemma_failure_stays(all, i + 1);
                }
                return Err(e);
            },
            Some(Ok((step, v))) => {
                match close(&mut phases, &pending, step, v) {
                    Ok(()) => {},
                    Err(e) => {
                        proof {
                            lemma_failure_stays(all, i + 1);
                        }
                        return Err(e);
                    },
                }
                pending = NameMap::new();
                assert(pending@ =~= Map::empty());
            },
        }
        assert(read_phase(middle, line@) =~= Ok::<Progress, TimingError>(
            (Progress { pending: pending@, phases: phases@ }),
        ));
        i += 1;
    }
    assert(all.take(i as int) =~= all);
    Ok(phases)
}

/// Whether `line` closes the phase `step`, or fails while closing one.
pub open spec fn touches(line: Seq<char>, step: Seq<char>) -> bool {
    match phase_of(trimmed(line)) {
        None => false,
        Some(Err(_)) => true,
        Some(Ok((s, _))) => s == step,
    }
}

/// A phase changes only at a line that closes it: a line that closes
/// another step, or none, leaves the phase as it was. So the parts
/// reported after a phase line never reach that phase.
pub proof fn lemma_phase_kept(p: Progress, line: Seq<char>, step: Seq<char>)
    requires
        !touches(line, step),
        read_line(p, line) is Ok,
    ensures
        read_line(p, line)->Ok_0.phases.contains_key(step) == p.phases.contains_key(step),
        phase_at(read_line(p, line)->Ok_0.phases, step) == phase_at(p.phases, step),
{
}

/// Through lines of which none closes `step`, the phase stays as it was
/// before them.
pub proof fn lemma_phase_kept_through(ls: Seq<Seq<char>>, tail: Seq<Seq<char>>, step: Seq<char>)
    requires
        forall|i: int| 0 <= i < tail.len() ==> !touches(#[trigger] tail[i], step),
        read_lines(ls + tail) is Ok,
    ensures
        read_lines(ls) is Ok,
        read_lines(ls + tail)->Ok_0.phases.contains_key(step) == read_lines(
            ls,
        )->Ok_0.phases.contains_key(step),
        phase_at(read_lines(ls + tail)->Ok_0.phases, step) == phase_at(
            read_lines(ls)->Ok_0.phases,
            step,
        ),
    decreases tail.len(),
{
    if tail.len() == 0 {
        assert(ls + tail =~= ls);
    } else {
        let all = ls + tail;
        let shorter = tail.drop_last();
        assert(all.drop_last() =~= ls + shorter);
        assert(all.last() == tail.last());
        assert forall|i: int| 0 <= i < shorter.len() implies !touches(
            #[trigger] shorter[i],
            step,
        ) by {
            assert(shorter[i] == tail[i]);
        }
        lemma_phase_kept_through(ls, shorter, step);
        lemma_phase_kept(read_lines(ls + shorter)->Ok_0, tail.last(), step);
    }
}

/// Parts that no phase line follows are dropped: through lines that
/// close no phase, the phases stay as they were before them.
pub proof fn lemma_trailing_parts_dropped(ls: Seq<Seq<char>>, tail: Seq<Seq<char>>)
    requires
        forall|i: int| 0 <= i < tail.len() ==> phase_of(trimmed(#[trigger] tail[i])) is None,
        read_lines(ls + tail) is Ok,
    ensures
        read_lines(ls) is Ok,
        read_lines(ls + tail)->Ok_0.phases == read_lines(ls)->Ok_0.phases,
    decreases tail.len(),
{
    if tail.len() == 0 {
        assert(ls + tail =~= ls);
    } else {
        let all = ls + tail;
        let shorter = tail.drop_last();
        assert(all.drop_last() =~= ls + shorter);
        assert(all.last() == tail.last());
        assert forall|i: int| 0 <= i < shorter.len() implies phase_of(
            trimmed(#[trigger] shorter[i]),
        ) is None by {
            assert(shorter[i] == tail[i]);
        }
        lemma_trailing_parts_dropped(ls, shorter);
    }
}

/// Parts at the end of a log are dropped: where `log` ends with a line
/// feed and no line of `tail` closes a phase, the log with `tail` after
/// it reports the same timings as the log alone.
pub proof fn lemma_trailing_text_dropped(log: Seq<char>, tail: Seq<char>)
    requires
        log.len() > 0 ==> log.last() == '\n',
        forall|i: int|
            0 <= i < lines(tail).len() ==> phase_of(trimmed(#[trigger] lines(tail)[i])) is None,
        timings_of(log + tail) is Ok,
    ensures
        timings_of(log + tail) == timings_of(log),
{
    crate::text::lemma_lines_append(log, tail);
    lemma_trailing_parts_dropped(lines(log), lines(tail));
}

/// What follows a phase in the log does not reach it: where `log` ends
/// with a line feed and no line of `tail` closes `step`, the log with
/// `tail` after it reports `step` as the log alone does.
pub proof fn lemma_later_text_kept_out(log: Seq<char>, tail: Seq<char>, step: Seq<char>)
    requires
        log.len() > 0 ==> log.last() == '\n',
        forall|i: int| 0 <= i < lines(tail).len() ==> !touches(#[trigger] lines(tail)[i], step),
        timings_of(log + tail) is Ok,
    ensures
        timings_of(log) is Ok,
        timings_of(log + tail)->Ok_0.contains_key(step) == timings_of(log)->Ok_0.contains_key(
            step,
        ),
        phase_at(timings_of(log + tail)->Ok_0, step) == phase_at(timings_of(log)->Ok_0, step),
{
    crate::text::lemma_lines_append(log, tail);
    lemma_phase_kept_through(lines(log), lines(tail), step);
}

/// A line that holds neither marker changes nothing: what is pending
/// and the phases stay as they were.
pub proof fn lemma_unmarked_line_kept(p: Progress, line: Seq<char>)
    requires
        !crate::text::contains(trimmed(line), part_marker()),
        !crate::text::contains(trimmed(line), phase_marker()),
    ensures
        read_line(p, line) == Ok::<Progress, TimingError>(p),
{
}

/// Through lines that hold neither marker the reading stays as it was.
pub proof fn lemma_unmarked_lines_kept(ls: Seq<Seq<char>>, tail: Seq<Seq<char>>)
    requires
        forall|i: int|
            0 <= i < tail.len() ==> !crate::text::contains(
                trimmed(#[trigger] tail[i]),
                part_marker(),
            ) && !crate::text::contains(trimmed(tail[i]), phase_marker()),
    ensures
        read_lines(ls + tail) == read_lines(ls),
    decreases tail.len(),
{
    if tail.len() == 0 {
        assert(ls + tail =~= ls);
    } else {
        let all = ls + tail;
        let shorter = tail.drop_last();
        assert(all.drop_last() =~= ls + shorter);
        assert(all.last() == tail.last());
        assert forall|i: int| 0 <= i < shorter.len() implies !crate::text::contains(
            trimmed(#[trigger] shorter[i]),
            part_marker(),
        ) && !crate::text::contains(trimmed(shorter[i]), phase_marker()) by {
            assert(shorter[i] == tail[i]);
        }
        lemma_unmarked_lines_kept(ls, shorter);
        if read_lines(ls + shorter) is Ok {
            lemma_unmarked_line_kept(read_lines(ls + shorter)->Ok_0, tail.last());
        }
    }
}

/// A line that closes a phase leaves nothing pending: the parts before
/// it went to that phase, and only to it.
pub proof fn lemma_phase_line_clears(p: Progress, line: Seq<char>)
    requires
        phase_of(trimmed(line)) is Some,
        read_line(p, line) is Ok,
    ensures
        read_line(p, line)->Ok_0.pending == Map::<Seq<char>, u64>::empty(),
{
}

/// Over a log of one phase line after lines that report parts only, the
/// phase has the seconds of its own line as its duration, and as its
/// parts the sums, name by name, of the parts reported.
pub proof fn lemma_parts_go_to_next_phase(ls: Seq<Seq<char>>, line: Seq<char>)
    requires
        forall|i: int| 0 <= i < ls.len() ==> phase_of(trimmed(#[trigger] ls[i])) is None,
        part_of(trimmed(line)) is None,
        phase_of(trimmed(line)) matches Some(Ok(_)),
        read_lines(ls.push(line)) is Ok,
    ensures
        read_lines(ls) is Ok,
        ({
            let (step, v) = phase_of(trimmed(line))->Some_0->Ok_0;
            let pending = read_lines(ls)->Ok_0.pending;
            read_lines(ls.push(line))->Ok_0.phases == Map::<Seq<char>, TimingView>::empty().insert(
                step,
                (TimingView { dur: v, parts: pending }),
            )
        }),
{
    assert(ls.push(line).drop_last() =~= ls);
    let empty = Seq::<Seq<char>>::empty();
    assert(empty + ls =~= ls);
    lemma_trailing_parts_dropped(empty, ls);
    let p = read_lines(ls)->Ok_0;
    assert(p.phases =~= Map::empty());
    let (step, v) = phase_of(trimmed(line))->Some_0->Ok_0;
    assert(sum_of(Map::empty(), p.pending) =~= p.pending);
}

/// The seconds of the lines among `ls` that close `step`, added up.
pub open spec fn reported(ls: Seq<Seq<char>>, step: Seq<char>) -> int
    decreases ls.len(),
{
    if ls.len() == 0 {
        0
    } else {
        reported(ls.drop_last(), step) + match phase_of(trimmed(ls.last())) {
            Some(Ok((s, v))) if s == step => v as int,
            _ => 0,
        }
    }
}

/// What a line adds to the part `name`, if it reports that part.
pub open spec fn part_in_line(line: Seq<char>, name: Seq<char>) -> int {
    match part_of(trimmed(line)) {
        Some(Ok((n, v))) if n == name => v as int,
        _ => 0,
    }
}

/// What the lines of `ls` have reported of the part `name` since the
/// last line that closed a phase.
pub open spec fn waiting(ls: Seq<Seq<char>>, name: Seq<char>) -> int
    decreases ls.len(),
{
    if ls.len() == 0 {
        0
    } else if phase_of(trimmed(ls.last())) is Some {
        0
    } else {
        waiting(ls.drop_last(), name) + part_in_line(ls.last(), name)
    }
}

/// What the phase `step` was given of the part `name`: at each line
/// that closes `step`, what was reported of the part since the phase
/// line before it, that line included.
pub open spec fn attributed(ls: Seq<Seq<char>>, step: Seq<char>, name: Seq<char>) -> int
    decreases ls.len(),
{
    if ls.len() == 0 {
        0
    } else {
        attributed(ls.drop_last(), step, name) + match phase_of(trimmed(ls.last())) {
            Some(Ok((s, _))) if s == step => waiting(ls.drop_last(), name) + part_in_line(
                ls.last(),
                name,
            ),
            _ => 0,
        }
    }
}

/// Over a log that is read without failure, the duration of each phase
/// is the sum of the seconds on the lines that close it; each of its
/// parts is the sum of what was reported of that part between a line
/// that closes the phase and the phase line before it; and what is
/// pending is what was reported since the last phase line.
pub proof fn lemma_sums(ls: Seq<Seq<char>>, step: Seq<char>, name: Seq<char>)
    requires
        read_lines(ls) is Ok,
    ensures
        phase_at(read_lines(ls)->Ok_0.phases, step).dur == reported(ls, step),
        amount(phase_at(read_lines(ls)->Ok_0.phases, step).parts, name) == attributed(
            ls,
            step,
            name,
        ),
        amount(read_lines(ls)->Ok_0.pending, name) == waiting(ls, name),
    decreases ls.len(),
{
    if ls.len() > 0 {
        lemma_sums(ls.drop_last(), step, name);
    }
}

} // verus!
