//! The history file: `~/.local/share/leyden/history.tsv`.
//!
//! One sample per line, tab separated: unix seconds, percent, watts (`-` when
//! the gauge gave nothing), the status key, and an optional marker. Plain text,
//! so the file stays greppable and diffable.
//!
//! The marker column was added after the format was already on disk. Lines
//! written before it simply lack a fifth field, and `parse` reads what it needs
//! and ignores the rest, so old files load unchanged.
//!
//! Appending is the normal path; the file is compacted on load and when it has
//! grown too large. Unparseable lines are skipped rather than treated as errors,
//! so a future format change degrades instead of exploding.
//!
//! The file itself is opened, read and replaced by the caller: these functions
//! take its lines and give the text to write.

use vstd::prelude::*;

use crate::battery::history::{law_follows_keys_round_trip, Follows, Sample};
use crate::battery::types::{law_status_keys_round_trip, law_the_files_words, Status};
use crate::decimal::laws::law_what_is_written_is_near;
use crate::decimal::{cut_to, decimal, fixed, is_digit, is_numeral, natural, push_fixed};
use crate::decimal::{
    lemma_cut_once, lemma_fixed_reads_back, lemma_natural_reads_back, lemma_small_powers,
};
use crate::decimal::{lower, push_natural, read_decimal, read_whole, unsigned_number, whole_number};
use crate::duration::Duration;
use crate::micro::{clip, clipped, Micro};
use crate::order::{
    in_order, law_in_order_is_ordered, law_in_order_keeps_everything, lemma_in_order_len, ordered,
    sort,
};
use crate::text::{chars_of, fields, joined, lemma_fields_of_joined, lemma_trimmed_alone};
use crate::text::{lemma_fields_of_both, lemma_lines_of_more, lines_of, same, split, trim};
use crate::text::{trimmed, views};

verus! {

/// Samples older than this are dropped when the file is read, and the file is
/// rewritten without them.
pub const MAX_AGE_SECS: u64 = 86_400;

/// A day at the recording cadence is roughly 100 KB. Past this the file is
/// carrying more than a day, so it is compacted on the spot rather than waiting
/// for the next load: a session left running for a week never reloads at all.
pub const MAX_BYTES: u64 = 262_144;

// ---------------------------------------------------------------------------
// One line

/// A power reading as the file has it.
pub open spec fn power_text(power: Option<Micro>) -> Seq<char> {
    match power {
        Some(watts) => fixed(watts as int, 2),
        None => "-"@,
    }
}

/// The columns of a sample's line.
pub open spec fn columns(s: Sample) -> Seq<Seq<char>> {
    seq![
        natural(s.at as nat),
        fixed(s.percent as int, 1),
        power_text(s.power),
        s.status.key_text(),
        s.follows.key_text(),
    ]
}

/// A sample's line, with the line end.
pub open spec fn written(s: Sample) -> Seq<char> {
    joined(columns(s), '\t').push('\n')
}

proof fn lemma_joined_five(a: Seq<char>, b: Seq<char>, c: Seq<char>, d: Seq<char>, e: Seq<char>)
    ensures
        joined(seq![a, b, c, d, e], '\t') == a + seq!['\t'] + b + seq!['\t'] + c + seq!['\t'] + d
            + seq!['\t'] + e,
{
    let p = seq![a, b, c, d, e];
    assert(p.drop_first() == seq![b, c, d, e]);
    assert(p.drop_first().drop_first() == seq![c, d, e]);
    assert(p.drop_first().drop_first().drop_first() == seq![d, e]);
    assert(p.drop_first().drop_first().drop_first().drop_first() == seq![e]);
    reveal_with_fuel(joined, 5);
    assert(joined(p, '\t') == a + seq!['\t'] + b + seq!['\t'] + c + seq!['\t'] + d + seq!['\t']
        + e);
}

/// Adds a power reading as the file has it.
pub(crate) fn push_power(out: &mut String, power: Option<Micro>)
    ensures
        final(out)@ == old(out)@ + power_text(power),
{
    match power {
        Some(watts) => push_fixed(out, watts, 2),
        None => out.append("-"),
    }
}

/// The line for a sample. A sample from before the epoch has none.
pub fn line(sample: &Sample) -> (r: Option<String>)
    ensures
        match r {
            Some(text) => sample.at >= 0 && text@ == written(*sample),
            None => sample.at < 0,
        },
{
    if sample.at < 0 {
        return None;
    }
    let mut out = String::new();
    push_natural(&mut out, sample.at as u64);
    out.push('\t');
    push_fixed(&mut out, sample.percent, 1);
    out.push('\t');
    push_power(&mut out, sample.power);
    out.push('\t');
    out.append(sample.status.as_key());
    out.push('\t');
    out.append(sample.follows.as_key());
    proof {
        let c = columns(*sample);
        lemma_joined_five(c[0], c[1], c[2], c[3], c[4]);
        assert(out@ == joined(c, '\t'));
    }
    out.push('\n');
    Some(out)
}

/// A moment as the file has it. Past the end of the clock there is none.
pub open spec fn moment(field: Seq<char>) -> Option<int> {
    match whole_number(trimmed(field)) {
        Some(secs) => if secs <= i64::MAX {
            Some(secs)
        } else {
            None
        },
        None => None,
    }
}

/// A power reading as the file has it: `None` where it cannot be read at all.
pub open spec fn power_of(field: Seq<char>) -> Option<Option<Micro>> {
    if field == "-"@ {
        Some(None)
    } else {
        match decimal(field) {
            Some(watts) => Some(Some(watts as i64)),
            None => None,
        }
    }
}

/// The sample on a line. Whatever comes after the marker is ignored.
pub open spec fn parsed(line: Seq<char>) -> Option<Sample> {
    let f = fields(line, '\t');
    if f.len() < 4 {
        None
    } else {
        match (moment(f[0]), decimal(f[1]), power_of(f[2])) {
            (Some(at), Some(percent), Some(power)) => Some(
                Sample {
                    at: at as i64,
                    percent: percent as i64,
                    power,
                    status: Status::keyed(trimmed(f[3])),
                    follows: if f.len() > 4 {
                        Follows::keyed(trimmed(f[4]))
                    } else {
                        Follows::Poll
                    },
                },
            ),
            _ => None,
        }
    }
}

/// Reads a moment as the file has it.
pub(crate) fn read_moment(field: &[char]) -> (r: Option<i64>)
    ensures
        match r {
            Some(at) => moment(field@) == Some(at as int),
            None => moment(field@) is None,
        },
{
    match read_whole(trim(field)) {
        Some(secs) => {
            if secs <= i64::MAX as u64 {
                Some(secs as i64)
            } else {
                None
            }
        },
        None => None,
    }
}

/// Reads a power reading as the file has it.
pub(crate) fn read_power(field: &[char]) -> (r: Option<Option<Micro>>)
    ensures
        r == power_of(field@),
{
    if same(field, "-") {
        return Some(None);
    }
    match read_decimal(field) {
        Some(watts) => Some(Some(watts)),
        None => None,
    }
}

/// The sample on a line; `None` where the line is not one.
pub fn parse(line: &str) -> (r: Option<Sample>)
    ensures
        r == parsed(line@),
{
    let all = chars_of(line);
    let f = split(all.as_slice(), '\t');
    let ghost fs = fields(line@, '\t');
    assert(f@.len() == fs.len());
    assert forall|i: int| 0 <= i < f@.len() implies (#[trigger] f@[i])@ == fs[i] by {
        assert(views(f@)[i] == f@[i]@);
    }
    if f.len() < 4 {
        return None;
    }
    let at = read_moment(f[0]);
    let percent = read_decimal(f[1]);
    let power = read_power(f[2]);
    match (at, percent, power) {
        (Some(at), Some(percent), Some(power)) => {
            let follows = if f.len() > 4 {
                Follows::of_key(trim(f[4]))
            } else {
                Follows::Poll
            };
            Some(Sample { at, percent, power, status: Status::of_key(trim(f[3])), follows })
        },
        _ => None,
    }
}

// ---------------------------------------------------------------------------
// The whole file

/// The samples on the lines, those from before `cutoff` left out.
pub open spec fn kept(lines: Seq<String>, cutoff: int) -> Seq<Sample>
    decreases lines.len(),
{
    if lines.len() == 0 {
        seq![]
    } else {
        let rest = kept(lines.drop_last(), cutoff);
        match parsed(lines.last()@) {
            Some(sample) => if sample.at < cutoff {
                rest
            } else {
                rest.push(sample)
            },
            None => rest,
        }
    }
}

/// How many of the lines hold a sample.
pub open spec fn readable(lines: Seq<String>) -> nat
    decreases lines.len(),
{
    if lines.len() == 0 {
        0
    } else {
        readable(lines.drop_last()) + if parsed(lines.last()@) is Some {
            1nat
        } else {
            0nat
        }
    }
}

/// The first second inside the horizon, at a time after the epoch.
pub open spec fn cutoff_at(now: Duration) -> int {
    clipped(now.secs - MAX_AGE_SECS + if now.nanos > 0 {
        1int
    } else {
        0int
    })
}

/// The first second inside the horizon, at a time after the epoch.
pub fn cutoff(now: Duration) -> (r: i64)
    ensures
        r == cutoff_at(now),
{
    let whole: i128 = now.secs as i128 - MAX_AGE_SECS as i128;
    clip(
        if now.nanos > 0 {
            whole + 1
        } else {
            whole
        },
    )
}

/// Every sample still inside the horizon, oldest first, plus how many parsed
/// lines the file held: the difference is what compaction would remove.
pub fn within_horizon(lines: &Vec<String>, cutoff: i64) -> (r: (Vec<Sample>, usize))
    ensures
        r.0@ == in_order(kept(lines@, cutoff as int)),
        r.1 == readable(lines@),
{
    let mut samples: Vec<Sample> = Vec::new();
    let mut count: usize = 0;
    let mut i: usize = 0;
    assert(lines@.take(0) == Seq::<String>::empty());
    while i < lines.len()
        invariant
            i <= lines@.len(),
            count <= i,
            samples@ == kept(lines@.take(i as int), cutoff as int),
            count == readable(lines@.take(i as int)),
        decreases lines@.len() - i,
    {
        assert(lines@.take(i + 1).drop_last() == lines@.take(i as int));
        if let Some(sample) = parse(lines[i].as_str()) {
            count += 1;
            if sample.at >= cutoff {
                samples.push(sample);
            }
        }
        i += 1;
    }
    assert(lines@.take(i as int) == lines@);
    sort(&mut samples);
    (samples, count)
}

/// The lines of the samples, one after another.
pub open spec fn file_text(samples: Seq<Sample>) -> Seq<char>
    decreases samples.len(),
{
    if samples.len() == 0 {
        seq![]
    } else {
        file_text(samples.drop_last()) + if samples.last().at >= 0 {
            written(samples.last())
        } else {
            seq![]
        }
    }
}

/// The text of a file that holds exactly `samples`.
pub fn rewrite(samples: &Vec<Sample>) -> (r: String)
    ensures
        r@ == file_text(samples@),
{
    let mut out = String::new();
    let mut i: usize = 0;
    assert(samples@.take(0) == Seq::<Sample>::empty());
    while i < samples.len()
        invariant
            i <= samples@.len(),
            out@ == file_text(samples@.take(i as int)),
        decreases samples@.len() - i,
    {
        assert(samples@.take(i + 1).drop_last() == samples@.take(i as int));
        match line(&samples[i]) {
            Some(text) => {
                out.append(text.as_str());
            },
            None => {
                assert(out@ + Seq::<char>::empty() == out@);
            },
        }
        i += 1;
    }
    assert(samples@.take(i as int) == samples@);
    out
}

/// What the lines say of the last `MAX_AGE_SECS`, oldest first.
pub open spec fn remembered(lines: Seq<String>, now: Duration) -> Seq<Sample> {
    in_order(kept(lines, cutoff_at(now)))
}

/// Every sample from the last `MAX_AGE_SECS`, oldest first, and the text to
/// replace the file with where that leaves lines behind.
pub fn load(lines: &Vec<String>, now: Duration) -> (r: (Vec<Sample>, Option<String>))
    ensures
        r.0@ == remembered(lines@, now),
        match r.1 {
            Some(text) => r.0@.len() < readable(lines@) && text@ == file_text(r.0@),
            None => r.0@.len() == readable(lines@),
        },
{
    let (samples, total) = within_horizon(lines, cutoff(now));
    proof {
        lemma_kept_within(lines@, cutoff_at(now));
        lemma_in_order_len(kept(lines@, cutoff_at(now)));
    }
    if samples.len() < total {
        let text = rewrite(&samples);
        (samples, Some(text))
    } else {
        (samples, None)
    }
}

/// The text to replace an oversized file with.
pub fn compacted(lines: &Vec<String>, now: Duration) -> (r: String)
    ensures
        r@ == file_text(remembered(lines@, now)),
{
    let (samples, _) = within_horizon(lines, cutoff(now));
    rewrite(&samples)
}

/// That so many bytes are more than is worth keeping.
pub open spec fn too_large(bytes: int) -> bool {
    bytes > MAX_BYTES
}

/// Whether a file has grown past what is worth keeping. Compaction otherwise
/// only happens on load, so a long-running session would append past the horizon
/// indefinitely.
pub fn oversized(bytes: u64) -> (r: bool)
    ensures
        r == too_large(bytes as int),
{
    bytes > MAX_BYTES
}

/// No sample is kept that no line holds.
pub proof fn lemma_kept_within(lines: Seq<String>, cutoff: int)
    ensures
        kept(lines, cutoff).len() <= readable(lines),
    decreases lines.len(),
{
    if lines.len() > 0 {
        lemma_kept_within(lines.drop_last(), cutoff);
    }
}

// ---------------------------------------------------------------------------
// What is written reads back

/// The sample as the file can hold it: the charge to a tenth of a percent, the
/// power to a hundredth of a watt.
pub open spec fn as_stored(s: Sample) -> Sample {
    Sample {
        percent: cut_to(s.percent as int, 1) as i64,
        power: match s.power {
            Some(watts) => Some(cut_to(watts as int, 2) as i64),
            None => None,
        },
        ..s
    }
}

/// Writing what was read back loses nothing more.
pub proof fn law_storing_again_changes_nothing(s: Sample)
    ensures
        as_stored(as_stored(s)) == as_stored(s),
{
    lemma_cut_once(s.percent as int, 1);
    if let Some(watts) = s.power {
        lemma_cut_once(watts as int, 2);
    }
}

/// A numeral has no white space and none of the separators in it.
pub proof fn lemma_numeral_plain(s: Seq<char>)
    requires
        is_numeral(s),
    ensures
        trimmed(s) == s,
        !s.contains('\t'),
        !s.contains(','),
        !s.contains(':'),
        !s.contains('\n'),
{
    assert(is_digit(s[0]) || s[0] == '.' || s[0] == '-');
    assert(is_digit(s.last()) || s.last() == '.' || s.last() == '-');
    lemma_trimmed_alone(s);
}

/// A power reading comes back as the file can hold it.
pub proof fn lemma_power_reads_back(power: Option<Micro>)
    ensures
        power_of(power_text(power)) == Some(
            match power {
                Some(watts) => Some(cut_to(watts as int, 2) as i64),
                None => None,
            },
        ),
        !power_text(power).contains('\t'),
        !power_text(power).contains('\n'),
{
    reveal_strlit("-");
    match power {
        Some(watts) => {
            lemma_fixed_reads_back(watts as int, 2);
            lemma_numeral_plain(fixed(watts as int, 2));
            let text = fixed(watts as int, 2);
            assert(decimal("-"@) is None) by {
                assert("-"@.skip(1) == Seq::<char>::empty());
                assert(unsigned_number(Seq::<char>::empty()) is None);
                reveal_strlit("inf");
                reveal_strlit("infinity");
                let none = Seq::<char>::empty().map_values(|c: char| lower(c));
                assert(none.len() == 0);
            }
        },
        None => {
            assert("-"@.len() == 1 && "-"@[0] == '-');
        },
    }
}

/// The keys have no white space and no separators in them.
proof fn lemma_keys_plain(status: Status, follows: Follows)
    ensures
        trimmed(status.key_text()) == status.key_text(),
        trimmed(follows.key_text()) == follows.key_text(),
        !status.key_text().contains('\t'),
        !follows.key_text().contains('\t'),
        !status.key_text().contains('\n'),
        !follows.key_text().contains('\n'),
{
    reveal_strlit("charging");
    reveal_strlit("discharging");
    reveal_strlit("full");
    reveal_strlit("not-charging");
    reveal_strlit("unknown");
    reveal_strlit("");
    reveal_strlit("sleep");
    reveal_strlit("launch");
    lemma_trimmed_alone(status.key_text());
    lemma_trimmed_alone(follows.key_text());
}

/// A sample survives a round trip through the file: what its line says is what
/// comes back.
pub proof fn law_a_sample_survives_a_round_trip(s: Sample)
    requires
        s.at >= 0,
    ensures
        parsed(written(s).drop_last()) == Some(as_stored(s)),
{
    let c = columns(s);
    assert(written(s).drop_last() == joined(c, '\t'));
    lemma_natural_reads_back(s.at as nat);
    lemma_numeral_plain(natural(s.at as nat));
    lemma_fixed_reads_back(s.percent as int, 1);
    lemma_numeral_plain(fixed(s.percent as int, 1));
    lemma_power_reads_back(s.power);
    lemma_keys_plain(s.status, s.follows);
    law_status_keys_round_trip(s.status);
    law_follows_keys_round_trip(s.follows);
    assert forall|i: int| 0 <= i < c.len() implies !(#[trigger] c[i]).contains('\t') by {}
    lemma_fields_of_joined(c, '\t');
}

/// A line from before the marker column existed loads as what it says, following
/// a poll.
pub proof fn law_old_lines_still_load(s: Sample)
    requires
        s.at >= 0,
    ensures
        parsed(joined(columns(s).drop_last(), '\t')) == Some(
            as_stored(Sample { follows: Follows::Poll, ..s }),
        ),
{
    let c = columns(s).drop_last();
    lemma_natural_reads_back(s.at as nat);
    lemma_numeral_plain(natural(s.at as nat));
    lemma_fixed_reads_back(s.percent as int, 1);
    lemma_numeral_plain(fixed(s.percent as int, 1));
    lemma_power_reads_back(s.power);
    lemma_keys_plain(s.status, s.follows);
    law_status_keys_round_trip(s.status);
    assert forall|i: int| 0 <= i < c.len() implies !(#[trigger] c[i]).contains('\t') by {}
    lemma_fields_of_joined(c, '\t');
}

/// Whatever a later format puts behind the marker is ignored.
pub proof fn law_more_columns_are_ignored(line: Seq<char>, more: Seq<char>)
    requires
        fields(line, '\t').len() >= 5,
    ensures
        parsed(line + seq!['\t'] + more) == parsed(line),
{
    lemma_fields_of_both(line, more, '\t');
}

/// No sample's line has a line end in it.
proof fn lemma_one_line(s: Sample)
    requires
        s.at >= 0,
    ensures
        !written(s).drop_last().contains('\n'),
        written(s).drop_last().last() != '\r',
        written(s).drop_last().len() > 0,
{
    let c = columns(s);
    assert(written(s).drop_last() == joined(c, '\t'));
    lemma_natural_reads_back(s.at as nat);
    lemma_numeral_plain(natural(s.at as nat));
    lemma_fixed_reads_back(s.percent as int, 1);
    lemma_numeral_plain(fixed(s.percent as int, 1));
    lemma_power_reads_back(s.power);
    lemma_keys_plain(s.status, s.follows);
    lemma_joined_five(c[0], c[1], c[2], c[3], c[4]);
    let t = c[0] + seq!['\t'] + c[1] + seq!['\t'] + c[2] + seq!['\t'] + c[3] + seq!['\t'];
    assert(joined(c, '\t') == t + c[4]);
    reveal_strlit("");
    reveal_strlit("sleep");
    reveal_strlit("launch");
    if s.follows == Follows::Poll {
        assert(joined(c, '\t') == t);
    } else {
        assert(joined(c, '\t').last() == c[4].last());
    }
    assert forall|i: int| 0 <= i < t.len() implies t[i] != '\n' by {
        let n0 = c[0].len() as int;
        let n1 = n0 + 1 + c[1].len();
        let n2 = n1 + 1 + c[2].len();
        let n3 = n2 + 1 + c[3].len();
        if i < n0 {
            assert(t[i] == c[0][i]);
        } else if n0 < i < n1 {
            assert(t[i] == c[1][i - n0 - 1]);
        } else if n1 < i < n2 {
            assert(t[i] == c[2][i - n1 - 1]);
        } else if n2 < i < n3 {
            assert(t[i] == c[3][i - n2 - 1]);
        }
    }
    assert forall|i: int| 0 <= i < (t + c[4]).len() implies (t + c[4])[i] != '\n' by {
        if i >= t.len() {
            assert((t + c[4])[i] == c[4][i - t.len()]);
        }
    }
}

/// The lines of a rewritten file are the lines of its samples.
proof fn lemma_file_lines(samples: Seq<Sample>)
    requires
        forall|i: int| 0 <= i < samples.len() ==> (#[trigger] samples[i]).at >= 0,
    ensures
        lines_of(file_text(samples)) == samples.map_values(|s: Sample| written(s).drop_last()),
        file_text(samples).len() > 0 ==> file_text(samples).last() == '\n',
    decreases samples.len(),
{
    if samples.len() > 0 {
        let rest = samples.drop_last();
        let s = samples.last();
        assert forall|i: int| 0 <= i < rest.len() implies (#[trigger] rest[i]).at >= 0 by {
            assert(rest[i] == samples[i]);
        }
        lemma_file_lines(rest);
        assert(s.at >= 0);
        lemma_one_line(s);
        let l = written(s).drop_last();
        assert(written(s) == l.push('\n'));
        lemma_lines_of_more(file_text(rest), l);
        assert(samples.map_values(|s: Sample| written(s).drop_last()) == rest.map_values(
            |s: Sample| written(s).drop_last(),
        ).push(l));
    } else {
        assert(lines_of(file_text(samples)) == Seq::<Seq<char>>::empty());
        assert(samples.map_values(|s: Sample| written(s).drop_last()) == Seq::<Seq<char>>::empty());
    }
}

/// A rewritten file loads as the samples it was written from, in their stored
/// form, and holds nothing that the next load would remove: compaction settles.
pub proof fn law_a_rewritten_file_loads_unchanged(
    samples: Seq<Sample>,
    lines: Seq<String>,
    cutoff: int,
)
    requires
        forall|i: int|
            0 <= i < samples.len() ==> (#[trigger] samples[i]).at >= 0 && samples[i].at >= cutoff,
        lines.map_values(|l: String| l@) == lines_of(file_text(samples)),
    ensures
        kept(lines, cutoff) == samples.map_values(|s: Sample| as_stored(s)),
        readable(lines) == kept(lines, cutoff).len(),
{
    lemma_file_lines(samples);
    assert(lines.len() == samples.len()) by {
        assert(lines.map_values(|l: String| l@).len() == lines.len());
    }
    assert forall|i: int| 0 <= i < lines.len() implies (#[trigger] lines[i])@ == written(
        samples[i],
    ).drop_last() by {
        assert(lines.map_values(|l: String| l@)[i] == lines[i]@);
    }
    lemma_all_load(samples, lines, cutoff);
}

proof fn lemma_all_load(samples: Seq<Sample>, lines: Seq<String>, cutoff: int)
    requires
        lines.len() == samples.len(),
        forall|i: int|
            0 <= i < samples.len() ==> (#[trigger] samples[i]).at >= 0 && samples[i].at >= cutoff,
        forall|i: int|
            0 <= i < lines.len() ==> (#[trigger] lines[i])@ == written(samples[i]).drop_last(),
    ensures
        kept(lines, cutoff) == samples.map_values(|s: Sample| as_stored(s)),
        readable(lines) == samples.len(),
    decreases lines.len(),
{
    if lines.len() > 0 {
        let rest = samples.drop_last();
        let before = lines.drop_last();
        assert forall|i: int| 0 <= i < rest.len() implies (#[trigger] rest[i]).at >= 0
            && rest[i].at >= cutoff by {
            assert(rest[i] == samples[i]);
        }
        assert forall|i: int| 0 <= i < before.len() implies (#[trigger] before[i])@ == written(
            rest[i],
        ).drop_last() by {
            assert(before[i] == lines[i]);
        }
        lemma_all_load(rest, before, cutoff);
        assert(samples[samples.len() - 1].at >= 0);
        assert(lines[lines.len() - 1]@ == written(samples.last()).drop_last());
        law_a_sample_survives_a_round_trip(samples.last());
        assert(samples.map_values(|s: Sample| as_stored(s)) == rest.map_values(
            |s: Sample| as_stored(s),
        ).push(as_stored(samples.last())));
    } else {
        assert(samples.map_values(|s: Sample| as_stored(s)) == Seq::<Sample>::empty());
    }
}

// ---------------------------------------------------------------------------
// What the file says

/// The columns of a line each say their own: the seconds since the epoch, the
/// charge, the power or a dash, what the battery was doing, and what came before.
/// A line that lacks one of the first four, or whose numbers are none, is no
/// sample; anything that the last two do not spell says nothing.
pub proof fn law_each_column_says_its_own(line: Seq<char>)
    requires
        fields(line, '\t').len() >= 4,
    ensures
        ({
            let f = fields(line, '\t');
            let at = whole_number(trimmed(f[0]));
            &&& parsed(line) is Some <==> at is Some && at->0 <= 0x7FFF_FFFF_FFFF_FFFF && decimal(
                f[1],
            ) is Some && (f[2] == "-"@ || decimal(f[2]) is Some)
            &&& parsed(line) matches Some(s) ==> {
                &&& at == Some(s.at as int)
                &&& s.percent as int == decimal(f[1])->0
                &&& s.power is None <==> f[2] == "-"@
                &&& s.power matches Some(power) ==> power as int == decimal(f[2])->0
                &&& s.status == Status::Charging <==> trimmed(f[3]) == "charging"@
                &&& s.status == Status::Discharging <==> trimmed(f[3]) == "discharging"@
                &&& s.status == Status::Full <==> trimmed(f[3]) == "full"@
                &&& s.status == Status::NotCharging <==> trimmed(f[3]) == "not-charging"@
                &&& s.follows == Follows::Sleep <==> f.len() > 4 && trimmed(f[4]) == "sleep"@
                &&& s.follows == Follows::Launch <==> f.len() > 4 && trimmed(f[4]) == "launch"@
            }
        }),
{
    let f = fields(line, '\t');
    law_the_files_words(trimmed(f[3]));
    lemma_decimal_fits(f[1]);
    lemma_decimal_fits(f[2]);
    reveal_strlit("sleep");
    reveal_strlit("launch");
    assert("sleep"@.len() == 5 && "launch"@.len() == 6);
}

/// What is read as a number fits.
pub proof fn lemma_decimal_fits(s: Seq<char>)
    ensures
        decimal(s) matches Some(v) ==> i64::MIN <= v <= i64::MAX,
{
}

/// A line of fewer than four columns is no sample.
pub proof fn law_a_short_line_is_no_sample(line: Seq<char>)
    requires
        fields(line, '\t').len() < 4,
    ensures
        parsed(line) is None,
{
}

/// The file holds a sample to a tenth of a percent and a hundredth of a watt, or
/// just beside, and its moment and words as they are.
pub proof fn law_what_is_stored_is_near(s: Sample)
    requires
        -9_000_000_000_000_000_000 <= s.percent <= 9_000_000_000_000_000_000,
        s.power matches Some(power) ==> -9_000_000_000_000_000_000 <= power
            <= 9_000_000_000_000_000_000,
    ensures
        as_stored(s).at == s.at,
        as_stored(s).status == s.status,
        as_stored(s).follows == s.follows,
        -61_000 <= as_stored(s).percent - s.percent <= 61_000,
        as_stored(s).power is Some <==> s.power is Some,
        s.power matches Some(power) ==> -6_100 <= as_stored(s).power->0 - power <= 6_100,
{
    lemma_small_powers();
    law_what_is_written_is_near(s.percent as int, 1);
    if let Some(power) = s.power {
        law_what_is_written_is_near(power as int, 2);
    }
}

/// A quarter of a mebibyte may be kept, and not a byte more.
pub proof fn law_a_file_is_kept_small(bytes: int)
    ensures
        too_large(bytes) <==> bytes > 256 * 1024,
{
}

/// That the line is the sample, written down.
pub open spec fn holds(line: String, x: Sample) -> bool {
    parsed(line@) == Some(x)
}

/// A sample is kept when and only when a line holds it that is at most a day old:
/// nothing inside the horizon is lost, nothing outside it comes back.
pub proof fn law_the_horizon_is_a_day(lines: Seq<String>, now: Duration, x: Sample)
    requires
        now.wf(),
        now.secs <= 0x7FFF_FFFF_FFFF_FFFF,
    ensures
        ordered(remembered(lines, now)),
        remembered(lines, now).contains(x) <==> now.secs * 1_000_000_000 + now.nanos
            - x.at * 1_000_000_000 <= 86_400 * 1_000_000_000 && exists|j: int|
            0 <= j < lines.len() && holds(#[trigger] lines[j], x),
{
    law_in_order_keeps_everything(kept(lines, cutoff_at(now)));
    law_in_order_is_ordered(kept(lines, cutoff_at(now)));
    lemma_kept_contains(lines, cutoff_at(now), x);
}

/// What one more line adds to what is kept.
proof fn lemma_one_more(rest: Seq<Sample>, got: Option<Sample>, cutoff: int, x: Sample)
    ensures
        (match got {
            Some(sample) => if sample.at < cutoff {
                rest
            } else {
                rest.push(sample)
            },
            None => rest,
        }).contains(x) <==> rest.contains(x) || (got == Some(x) && x.at >= cutoff),
{
    if let Some(sample) = got {
        let all = rest.push(sample);
        assert(all[rest.len() as int] == sample);
        if rest.contains(x) {
            let k = choose|k: int| 0 <= k < rest.len() && rest[k] == x;
            assert(all[k] == x);
        }
        if all.contains(x) {
            let k = choose|k: int| 0 <= k < all.len() && all[k] == x;
            assert(k < rest.len() ==> rest[k] == x);
        }
    }
}

proof fn lemma_kept_contains(lines: Seq<String>, cutoff: int, x: Sample)
    ensures
        kept(lines, cutoff).contains(x) <==> x.at >= cutoff && exists|j: int|
            0 <= j < lines.len() && holds(#[trigger] lines[j], x),
    decreases lines.len(),
{
    if lines.len() > 0 {
        let init = lines.drop_last();
        let last = lines.len() - 1;
        lemma_kept_contains(init, cutoff, x);
        lemma_one_more(kept(init, cutoff), parsed(lines.last()@), cutoff, x);
        assert(holds(lines[last], x) <==> parsed(lines.last()@) == Some(x));
        if exists|j: int| 0 <= j < init.len() && holds(#[trigger] init[j], x) {
            let j = choose|j: int| 0 <= j < init.len() && holds(#[trigger] init[j], x);
            assert(holds(lines[j], x));
        }
        if exists|j: int| 0 <= j < lines.len() && holds(#[trigger] lines[j], x) {
            let j = choose|j: int| 0 <= j < lines.len() && holds(#[trigger] lines[j], x);
            assert(j < last ==> holds(init[j], x));
        }
    }
}

/// Line by line: what two parts of a file hold is what the whole holds, as often
/// and in that order, and what is written of two lists is written of both.
pub proof fn law_a_file_is_its_lines(
    a: Seq<String>,
    b: Seq<String>,
    cutoff: int,
    s: Seq<Sample>,
    t: Seq<Sample>,
)
    ensures
        kept(a + b, cutoff) == kept(a, cutoff) + kept(b, cutoff),
        readable(a + b) == readable(a) + readable(b),
        file_text(s + t) == file_text(s) + file_text(t),
    decreases b.len(), t.len(),
{
    if b.len() > 0 {
        assert((a + b).drop_last() == a + b.drop_last());
        law_a_file_is_its_lines(a, b.drop_last(), cutoff, s, t);
        assert(kept(a + b, cutoff) == kept(a, cutoff) + kept(b, cutoff));
    } else if t.len() > 0 {
        assert(a + b == a);
        assert((s + t).drop_last() == s + t.drop_last());
        law_a_file_is_its_lines(a, b, cutoff, s, t.drop_last());
        assert(file_text(s + t) == file_text(s) + file_text(t));
    } else {
        assert(a + b == a);
        assert(s + t == s);
        assert(kept(a, cutoff) + kept(b, cutoff) == kept(a, cutoff));
        assert(file_text(s) + file_text(t) == file_text(s));
    }
}

/// One line holds one sample where it is one and inside the horizon; one sample
/// from after the epoch is written as one line.
pub proof fn law_one_line_is_one_sample(line: String, cutoff: int, s: Sample)
    ensures
        parsed(line@) matches Some(x) ==> readable(seq![line]) == 1 && kept(seq![line], cutoff)
            == if x.at >= cutoff {
            seq![x]
        } else {
            seq![]
        },
        parsed(line@) is None ==> readable(seq![line]) == 0 && kept(seq![line], cutoff).len() == 0,
        s.at >= 0 ==> file_text(seq![s]) == written(s),
        s.at < 0 ==> file_text(seq![s]).len() == 0,
{
    assert(seq![line].drop_last() == Seq::<String>::empty());
    assert(seq![s].drop_last() == Seq::<Sample>::empty());
    assert(kept(Seq::<String>::empty(), cutoff) == Seq::<Sample>::empty());
    assert(readable(Seq::<String>::empty()) == 0);
    assert(file_text(Seq::<Sample>::empty()) == Seq::<char>::empty());
    assert(file_text(seq![s]) == if s.at >= 0 {
        written(s)
    } else {
        seq![]
    });
}

} // verus!
