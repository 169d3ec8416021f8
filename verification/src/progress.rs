//! One progress bar over the generation of the tiles and the writing of the archive.

use vstd::arithmetic::div_mod::*;
use vstd::prelude::*;
use vstd::string::*;

use crate::text;

verus! {

/// The steps of the whole bar.
pub const PROGRESS_SCALE: usize = 10_000;

/// The steps that generation takes of the bar of a PMTiles run.
pub const PMTILES_GENERATE_WEIGHT: usize = 9_000;

/// The steps that generation takes of the bar of an MBTiles run.
pub const MBTILES_GENERATE_WEIGHT: usize = 10_000;

/// How far a run has come, in its two stages.
#[derive(Clone, Copy, Debug, PartialEq, Eq, Structural)]
pub struct SingleProgress {
    pub generation_total: u64,
    pub generation_done: u64,
    pub generation_weight: usize,
    pub build_total: u64,
    pub build_done: u64,
    pub build_weight: usize,
}

/// The steps that a stage has done: its share of the weight, rounded down.
pub open spec fn steps(done: int, total: int, weight: int) -> int {
    if weight == 0 {
        0
    } else {
        (if done <= total {
            done
        } else {
            total
        }) * weight / (if total >= 1 {
            total
        } else {
            1
        })
    }
}

/// The sum of two numbers, where it does not pass a limit.
pub open spec fn capped(done: int, more: int, limit: int) -> int {
    if done + more <= limit {
        done + more
    } else {
        limit
    }
}

/// The larger of a number and one.
pub open spec fn at_least_one(n: u64) -> u64 {
    if n >= 1 {
        n
    } else {
        1
    }
}

/// A stage that is done in part has done at most its weight, and at least what it had before.
pub proof fn lemma_steps(a: int, b: int, total: int, weight: int)
    requires
        0 <= a <= b,
        0 <= total,
        0 <= weight,
    ensures
        0 <= steps(a, total, weight) <= steps(b, total, weight) <= weight,
        total >= 1 && b >= total ==> steps(b, total, weight) == weight,
{
    if weight > 0 {
        let t = if total >= 1 {
            total
        } else {
            1
        };
        let p = if a <= total {
            a
        } else {
            total
        };
        let q = if b <= total {
            b
        } else {
            total
        };
        assert(0 <= p * weight <= q * weight && q * weight <= t * weight) by (nonlinear_arith)
            requires
                0 <= p <= q <= t,
                0 <= weight,
        ;
        lemma_div_pos_is_pos(p * weight, t);
        lemma_div_is_ordered(p * weight, q * weight, t);
        lemma_div_is_ordered(q * weight, t * weight, t);
        lemma_div_multiples_vanish(weight, t);
        assert(t * weight == weight * t) by (nonlinear_arith);
    }
}

/// The steps that a stage has done.
pub fn weighted_position(done: u64, total: u64, weight: usize) -> (r: usize)
    ensures
        r == steps(done as int, total as int, weight as int),
        r <= weight,
{
    proof {
        lemma_steps(done as int, done as int, total as int, weight as int);
    }
    if weight == 0 {
        return 0;
    }
    let part: u128 = if done <= total {
        done as u128
    } else {
        total as u128
    };
    let whole: u128 = if total >= 1 {
        total as u128
    } else {
        1
    };
    assert(0 <= part * (weight as u128) <= 0xffff_ffff_ffff_ffff * 0xffff_ffff_ffff_ffff)
        by (nonlinear_arith)
        requires
            part <= 0xffff_ffff_ffff_ffff,
            weight <= 0xffff_ffff_ffff_ffff,
    ;
    (part * weight as u128 / whole) as usize
}

impl SingleProgress {
    /// Whether the stages share out the whole bar and neither has done more than there is.
    pub open spec fn wf(self) -> bool {
        &&& self.generation_total >= 1
        &&& self.generation_done <= self.generation_total
        &&& self.build_total >= 1
        &&& self.build_done <= self.build_total
        &&& self.generation_weight + self.build_weight == PROGRESS_SCALE
    }

    /// The steps that the bar shows.
    pub open spec fn shown(self) -> int {
        steps(
            self.generation_done as int,
            self.generation_total as int,
            self.generation_weight as int,
        ) + steps(self.build_done as int, self.build_total as int, self.build_weight as int)
    }

    /// A bar of which nothing is done.
    pub open spec fn fresh(generation_total: u64, generation_weight: usize) -> SingleProgress {
        SingleProgress {
            generation_total: at_least_one(generation_total),
            generation_done: 0,
            generation_weight,
            build_total: 1,
            build_done: 0,
            build_weight: (PROGRESS_SCALE - generation_weight) as usize,
        }
    }

    /// The bar after `completed` more tiles of generation.
    pub open spec fn generated(self, completed: int) -> SingleProgress {
        SingleProgress {
            generation_done: capped(
                self.generation_done as int,
                completed,
                self.generation_total as int,
            ) as u64,
            ..self
        }
    }

    /// The bar after `n` more tiles of the archive.
    pub open spec fn built(self, n: int) -> SingleProgress {
        SingleProgress {
            build_done: capped(self.build_done as int, n, self.build_total as int) as u64,
            ..self
        }
    }

    /// The bar of a PMTiles run.
    pub fn pmtiles(generation_total: u64) -> (progress: SingleProgress)
        ensures
            progress == SingleProgress::fresh(generation_total, PMTILES_GENERATE_WEIGHT),
            progress.wf(),
    {
        Self::new(
            generation_total,
            PMTILES_GENERATE_WEIGHT,
            PROGRESS_SCALE - PMTILES_GENERATE_WEIGHT,
        )
    }

    /// The bar of an MBTiles run.
    pub fn mbtiles(generation_total: u64) -> (progress: SingleProgress)
        ensures
            progress == SingleProgress::fresh(generation_total, MBTILES_GENERATE_WEIGHT),
            progress.wf(),
    {
        Self::new(generation_total, MBTILES_GENERATE_WEIGHT, 0)
    }

    fn new(generation_total: u64, generation_weight: usize, build_weight: usize) -> (progress:
        SingleProgress)
        requires
            generation_weight + build_weight == PROGRESS_SCALE,
        ensures
            progress == SingleProgress::fresh(generation_total, generation_weight),
            progress.wf(),
    {
        SingleProgress {
            generation_total: if generation_total >= 1 {
                generation_total
            } else {
                1
            },
            generation_done: 0,
            generation_weight,
            build_total: 1,
            build_done: 0,
            build_weight,
        }
    }

    /// Counts `completed` tiles of generation; what passes the total is left out.
    pub fn advance_generation(&mut self, completed: u64)
        requires
            old(self).wf(),
        ensures
            *final(self) == old(self).generated(completed as int),
            final(self).wf(),
    {
        if completed <= self.generation_total - self.generation_done {
            self.generation_done += completed;
        } else {
            self.generation_done = self.generation_total;
        }
    }

    /// Ends generation.
    pub fn finish_generation(&mut self)
        requires
            old(self).wf(),
        ensures
            *final(self) == (SingleProgress {
                generation_done: old(self).generation_total,
                ..*old(self)
            }),
            final(self).wf(),
    {
        self.generation_done = self.generation_total;
    }

    /// Starts the writing of `total` tiles.
    pub fn start_build(&mut self, total: u64)
        requires
            old(self).wf(),
        ensures
            *final(self) == (SingleProgress {
                build_total: at_least_one(total),
                build_done: 0,
                ..*old(self)
            }),
            final(self).wf(),
    {
        self.build_total = if total >= 1 {
            total
        } else {
            1
        };
        self.build_done = 0;
    }

    /// Counts `n` tiles of the archive; what passes the total is left out.
    pub fn advance_build(&mut self, n: u64)
        requires
            old(self).wf(),
        ensures
            *final(self) == old(self).built(n as int),
            final(self).wf(),
    {
        if n <= self.build_total - self.build_done {
            self.build_done += n;
        } else {
            self.build_done = self.build_total;
        }
    }

    /// Ends both stages.
    pub fn finish(&mut self)
        requires
            old(self).wf(),
        ensures
            *final(self) == (SingleProgress {
                generation_done: old(self).generation_total,
                build_done: old(self).build_total,
                ..*old(self)
            }),
            final(self).wf(),
    {
        self.generation_done = self.generation_total;
        self.build_done = self.build_total;
    }

    /// The steps that the bar shows.
    pub fn position(&self) -> (r: usize)
        requires
            self.wf(),
        ensures
            r == self.shown(),
            r <= PROGRESS_SCALE,
    {
        let generation: usize = weighted_position(
            self.generation_done,
            self.generation_total,
            self.generation_weight,
        );
        let build: usize = weighted_position(self.build_done, self.build_total, self.build_weight);
        generation + build
    }
}

/// The bar never shows more than there is, and neither kind of progress moves it back.
pub proof fn law_progress_only_grows(p: SingleProgress, completed: u64, n: u64)
    requires
        p.wf(),
    ensures
        0 <= p.shown() <= PROGRESS_SCALE,
        p.shown() <= p.generated(completed as int).shown(),
        p.shown() <= p.built(n as int).shown(),
{
    let g = p.generated(completed as int);
    let b = p.built(n as int);
    lemma_steps(
        p.generation_done as int,
        g.generation_done as int,
        p.generation_total as int,
        p.generation_weight as int,
    );
    lemma_steps(
        p.build_done as int,
        b.build_done as int,
        p.build_total as int,
        p.build_weight as int,
    );
}

/// Of a PMTiles run, the end of generation shows nine tenths of the bar and the end of the archive
/// all of it; of an MBTiles run, the end of generation shows all of it.
pub proof fn law_stages_share_the_bar(p: SingleProgress)
    requires
        p.wf(),
        p.generation_done == p.generation_total,
    ensures
        p.generation_weight == PMTILES_GENERATE_WEIGHT && p.build_done == 0 ==> p.shown() == 9_000,
        p.generation_weight == MBTILES_GENERATE_WEIGHT ==> p.shown() == 10_000,
        p.build_done == p.build_total ==> p.shown() == 10_000,
{
    lemma_steps(
        p.generation_done as int,
        p.generation_done as int,
        p.generation_total as int,
        p.generation_weight as int,
    );
    lemma_steps(0, p.build_done as int, p.build_total as int, p.build_weight as int);
    assert(steps(0, p.build_total as int, p.build_weight as int) == 0) by {
        assert(0 * p.build_weight == 0) by (nonlinear_arith);
        lemma_div_basics(p.build_total as int);
    }
}

/// Two advances in a row are one advance by their sum.
pub proof fn law_advances_add_up(p: SingleProgress, a: int, b: int)
    requires
        p.wf(),
        a >= 0,
        b >= 0,
    ensures
        p.generated(a).generated(b) == p.generated(a + b),
        p.built(a).built(b) == p.built(a + b),
{
}

/// What the bar says while a zoom is generated.
pub open spec fn generate_label(z: u8, stage_done: u64, stage_total: u64) -> Seq<char> {
    seq!['[', 'z'] + text::decimal(z as nat) + seq![' '] + text::decimal(stage_done as nat)
        + seq!['/'] + text::decimal(stage_total as nat) + seq![']']
}

/// What the bar says while the archive is written.
pub open spec fn build_label(done: u64, total: u64) -> Seq<char> {
    seq!['[', 'p', 'm', 't', 'i', 'l', 'e', 's', ' '] + text::decimal(done as nat) + seq!['/']
        + text::decimal(total as nat) + seq![']']
}

/// What the bar says while a zoom is generated: the zoom, the tiles looked at and the tiles of its
/// frontier.
pub fn generate_stage(z: u8, stage_done: u64, stage_total: u64) -> (label: String)
    ensures
        label@ == generate_label(z, stage_done, stage_total),
{
    proof {
        reveal_strlit("[z");
        reveal_strlit(" ");
        reveal_strlit("/");
        reveal_strlit("]");
    }
    let mut label: String = "[z".to_owned();
    text::push_number(&mut label, z as u64);
    label.append(" ");
    text::push_number(&mut label, stage_done);
    label.append("/");
    text::push_number(&mut label, stage_total);
    label.append("]");
    assert(label@ =~= generate_label(z, stage_done, stage_total));
    label
}

/// What the bar says while the archive is written: the tiles written and all tiles.
pub fn build_stage(done: u64, total: u64) -> (label: String)
    ensures
        label@ == build_label(done, total),
{
    proof {
        reveal_strlit("[pmtiles ");
        reveal_strlit("/");
        reveal_strlit("]");
    }
    let mut label: String = "[pmtiles ".to_owned();
    text::push_number(&mut label, done);
    label.append("/");
    text::push_number(&mut label, total);
    label.append("]");
    assert(label@ =~= build_label(done, total));
    label
}

/// The unit in which a count is shown.
#[derive(Clone, Copy, Debug, PartialEq, Eq, Structural)]
pub enum CountUnit {
    One,
    Thousand,
    Million,
    Billion,
}

impl CountUnit {
    /// How many the unit stands for.
    pub open spec fn size(self) -> u64 {
        match self {
            CountUnit::One => 1,
            CountUnit::Thousand => 1_000,
            CountUnit::Million => 1_000_000,
            CountUnit::Billion => 1_000_000_000,
        }
    }

    /// How many the unit stands for.
    pub fn divisor(&self) -> (n: u64)
        ensures
            n == self.size(),
    {
        match self {
            CountUnit::One => 1,
            CountUnit::Thousand => 1_000,
            CountUnit::Million => 1_000_000,
            CountUnit::Billion => 1_000_000_000,
        }
    }
}

/// The unit in which a count is shown: the largest that is not larger than the count, and ones for
/// nothing.
pub fn count_unit(value: u64) -> (unit: CountUnit)
    ensures
        unit.size() <= value || unit == CountUnit::One,
        forall|other: CountUnit| (#[trigger] other.size()) <= value ==> other.size() <= unit.size(),
{
    if value >= 1_000_000_000 {
        CountUnit::Billion
    } else if value >= 1_000_000 {
        CountUnit::Million
    } else if value >= 1_000 {
        CountUnit::Thousand
    } else {
        CountUnit::One
    }
}

/// Two digits at least.
pub open spec fn two_digits(n: nat) -> Seq<char> {
    if n < 10 {
        seq!['0'] + text::decimal(n)
    } else {
        text::decimal(n)
    }
}

/// A duration in hours, minutes and seconds; the larger units are left out while they are zero.
pub open spec fn duration_text(secs: nat) -> Seq<char> {
    let hours = secs / 3600;
    let minutes = secs % 3600 / 60;
    let seconds = secs % 60;
    if hours > 0 {
        text::decimal(hours) + seq!['h'] + two_digits(minutes) + seq!['m'] + two_digits(seconds)
            + seq!['s']
    } else if minutes > 0 {
        text::decimal(minutes) + seq!['m'] + two_digits(seconds) + seq!['s']
    } else {
        text::decimal(seconds) + seq!['s']
    }
}

fn push_two_digits(out: &mut String, n: u64)
    ensures
        final(out)@ == old(out)@ + two_digits(n as nat),
{
    let ghost before = out@;
    proof {
        reveal_strlit("0");
    }
    if n < 10 {
        out.append("0");
    }
    text::push_number(out, n);
    assert(out@ =~= before + two_digits(n as nat));
}

/// A duration of whole seconds as the bar shows it.
pub fn format_duration(secs: u64) -> (shown: String)
    ensures
        shown@ == duration_text(secs as nat),
{
    proof {
        reveal_strlit("h");
        reveal_strlit("m");
        reveal_strlit("s");
    }
    let hours: u64 = secs / 3600;
    let minutes: u64 = (secs % 3600) / 60;
    let seconds: u64 = secs % 60;
    let mut shown: String = String::new();
    if hours > 0 {
        text::push_number(&mut shown, hours);
        shown.append("h");
        push_two_digits(&mut shown, minutes);
        shown.append("m");
        push_two_digits(&mut shown, seconds);
    } else if minutes > 0 {
        text::push_number(&mut shown, minutes);
        shown.append("m");
        push_two_digits(&mut shown, seconds);
    } else {
        text::push_number(&mut shown, seconds);
    }
    shown.append("s");
    assert(shown@ =~= duration_text(secs as nat));
    shown
}

/// The steps of a stage are its share of the weight, rounded down: all of it once it is done, and
/// none of it before it has begun.
pub proof fn law_steps_are_the_share(done: u64, total: u64, weight: usize, r: usize)
    requires
        call_ensures(weighted_position, (done, total, weight), r),
    ensures
        done <= total && total >= 1 ==> r * total <= done * weight < (r + 1) * total,
        done >= total && total >= 1 ==> r == weight,
        done == 0 || total == 0 ==> r == 0,
{
    lemma_steps(done as int, done as int, total as int, weight as int);
    if total >= 1 && done <= total {
        let n = done * weight;
        if weight == 0 {
            assert(done * 0 == 0);
            assert(0 * total == 0 && (0 + 1) * total == total);
        } else {
            lemma_fundamental_div_mod(n as int, total as int);
            lemma_mod_bound(n as int, total as int);
            assert(total * r == r * total) by (nonlinear_arith);
            assert((r + 1) * total == r * total + total) by (nonlinear_arith);
        }
    }
    if done == 0 || total == 0 {
        assert(0 * weight == 0) by (nonlinear_arith);
        lemma_div_basics(if total >= 1 {
            total as int
        } else {
            1
        });
    }
}

/// The bar of a run has 10000 steps: all for the tiles of an MBTiles run, and for those of a PMTiles
/// run 9000, the others being for the archive. Nothing is done.
pub proof fn law_bars_of_the_two_runs(total: u64, p: SingleProgress, m: SingleProgress)
    requires
        call_ensures(SingleProgress::pmtiles, (total,), p),
        call_ensures(SingleProgress::mbtiles, (total,), m),
    ensures
        p.generation_weight == 9_000 && p.build_weight == 1_000,
        m.generation_weight == 10_000 && m.build_weight == 0,
        p.generation_done == 0 && p.build_done == 0,
        m.generation_done == 0 && m.build_done == 0,
        total >= 1 ==> p.generation_total == total && m.generation_total == total,
        total == 0 ==> p.generation_total == 1 && m.generation_total == 1,
{
}

/// A stage advances by what was completed, up to its total, and touches nothing else.
pub proof fn law_stages_advance_to_their_total(p: &mut SingleProgress, n: u64)
    requires
        old(p).wf(),
    ensures
        call_ensures(SingleProgress::advance_generation, (p, n), ()) ==> (if old(p).generation_done
            + n <= old(p).generation_total {
            final(p).generation_done == old(p).generation_done + n
        } else {
            final(p).generation_done == old(p).generation_total
        }) && final(p).generation_total == old(p).generation_total && final(p).build_done == old(p).build_done && final(p).build_total == old(p).build_total && final(p).generation_weight
            == old(p).generation_weight,
        call_ensures(SingleProgress::advance_build, (p, n), ()) ==> (if old(p).build_done + n
            <= old(p).build_total {
            final(p).build_done == old(p).build_done + n
        } else {
            final(p).build_done == old(p).build_total
        }) && final(p).build_total == old(p).build_total && final(p).generation_done == old(p).generation_done && final(p).generation_total == old(p).generation_total,
        call_ensures(SingleProgress::finish_generation, (p,), ()) ==> final(p).generation_done
            == old(p).generation_total && final(p).generation_total == old(p).generation_total
            && final(p).build_done == old(p).build_done,
        call_ensures(SingleProgress::start_build, (p, n), ()) ==> final(p).build_done == 0 && (n
            >= 1 ==> final(p).build_total == n) && final(p).generation_done == old(p).generation_done && final(p).generation_total == old(p).generation_total
            && final(p).build_weight == old(p).build_weight,
        call_ensures(SingleProgress::finish, (p,), ()) ==> final(p).generation_done == old(p).generation_total && final(p).build_done == old(p).build_total,
{
}

/// The bar shows the steps of both stages together.
pub proof fn law_bar_shows_both_stages(p: SingleProgress, r: usize, generation: usize, build: usize)
    requires
        call_ensures(SingleProgress::position, (&p,), r),
        call_ensures(
            weighted_position,
            (p.generation_done, p.generation_total, p.generation_weight),
            generation,
        ),
        call_ensures(weighted_position, (p.build_done, p.build_total, p.build_weight), build),
    ensures
        r == generation + build,
{
}

/// The bar says which zoom is made, how many of its tiles are done and how many there are; or how
/// many tiles of the archive are written and how many there are.
pub proof fn law_bar_says_what_is_done(
    z: u8,
    done: u64,
    total: u64,
    zoom_label: String,
    archive_label: String,
    zoom: String,
    first: String,
    last: String,
)
    requires
        call_ensures(generate_stage, (z, done, total), zoom_label),
        call_ensures(build_stage, (done, total), archive_label),
        call_ensures(text::number_text, (z as u64,), zoom),
        call_ensures(text::number_text, (done,), first),
        call_ensures(text::number_text, (total,), last),
    ensures
        zoom_label@ == "[z"@ + zoom@ + " "@ + first@ + "/"@ + last@ + "]"@,
        archive_label@ == "[pmtiles "@ + first@ + "/"@ + last@ + "]"@,
{
    reveal_strlit("[z");
    reveal_strlit(" ");
    reveal_strlit("/");
    reveal_strlit("]");
    reveal_strlit("[pmtiles ");
    assert("[z"@ =~= seq!['[', 'z']);
    assert(" "@ =~= seq![' ']);
    assert("/"@ =~= seq!['/']);
    assert("]"@ =~= seq![']']);
    assert("[pmtiles "@ =~= seq!['[', 'p', 'm', 't', 'i', 'l', 'e', 's', ' ']);
}

/// Counts are shown in ones, thousands, millions and billions, from one of each on.
pub proof fn law_units_of_counts(value: u64, unit: CountUnit, n: u64)
    requires
        call_ensures(count_unit, (value,), unit),
        call_ensures(CountUnit::divisor, (&unit,), n),
    ensures
        value < 1_000 ==> unit == CountUnit::One && n == 1,
        1_000 <= value < 1_000_000 ==> unit == CountUnit::Thousand && n == 1_000,
        1_000_000 <= value < 1_000_000_000 ==> unit == CountUnit::Million && n == 1_000_000,
        1_000_000_000 <= value ==> unit == CountUnit::Billion && n == 1_000_000_000,
{
    assert(CountUnit::One.size() == 1 && CountUnit::Thousand.size() == 1_000);
    assert(CountUnit::Million.size() == 1_000_000 && CountUnit::Billion.size() == 1_000_000_000);
}

/// A duration is shown in hours, minutes and seconds, minutes and seconds with two digits behind a
/// larger unit; units that are zero are left out before the first that is not.
pub proof fn law_duration_in_its_units(
    secs: u64,
    h: u64,
    m: u64,
    s: u64,
    shown: String,
    hours: String,
    minutes: String,
    seconds: String,
)
    requires
        call_ensures(format_duration, (secs,), shown),
        call_ensures(text::number_text, (h,), hours),
        call_ensures(text::number_text, (m,), minutes),
        call_ensures(text::number_text, (s,), seconds),
        secs == 3600 * h + 60 * m + s,
        m < 60,
        s < 60,
    ensures
        ({
            let mm = if m < 10 {
                "0"@ + minutes@
            } else {
                minutes@
            };
            let ss = if s < 10 {
                "0"@ + seconds@
            } else {
                seconds@
            };
            &&& h > 0 ==> shown@ == hours@ + "h"@ + mm + "m"@ + ss + "s"@
            &&& h == 0 && m > 0 ==> shown@ == minutes@ + "m"@ + ss + "s"@
            &&& h == 0 && m == 0 ==> shown@ == seconds@ + "s"@
        }),
{
    reveal_strlit("0");
    reveal_strlit("h");
    reveal_strlit("m");
    reveal_strlit("s");
    assert("0"@ =~= seq!['0']);
    assert("h"@ =~= seq!['h']);
    assert("m"@ =~= seq!['m']);
    assert("s"@ =~= seq!['s']);
    assert(secs / 3600 == h && secs % 3600 / 60 == m && secs % 60 == s);
}

} // verus!
